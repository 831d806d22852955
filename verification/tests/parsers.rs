use tsptools::helpers::ParsingError;
use tsptools::parsers::{
    find_colon, find_line, full_matrix_file, parse_full_matrix, parse_half_matrix, parse_header,
    parse_line, parse_row, parse_row_start, parse_simple, parse_tour, weight_type_of,
    WeightFormat, WeightType,
};
use tsptools::text::split_lines;

fn lines(text: &str) -> Vec<Vec<u8>> {
    split_lines(text.as_bytes())
}

#[test]
fn header_lines_have_a_key_and_a_value() {
    assert_eq!(
        parse_line(b"DIMENSION : 52"),
        Some((b"DIMENSION".to_vec(), b"52".to_vec()))
    );
    assert_eq!(
        parse_line(b"  NAME:  my problem \r"),
        Some((b"NAME".to_vec(), b"my problem".to_vec()))
    );
    assert_eq!(parse_line(b"A:B:C"), Some((b"A".to_vec(), b"B".to_vec())));
    assert_eq!(parse_line(b":"), Some((vec![], vec![])));
    assert_eq!(parse_line(b"EOF"), None);
    assert_eq!(parse_line(b""), None);
    assert_eq!(find_colon(b"ab:cd:e", 0), 2);
    assert_eq!(find_colon(b"ab:cd:e", 3), 5);
    assert_eq!(find_colon(b"ab:cd:e", 6), 7);
}

#[test]
fn rows_are_the_numbers_of_a_line() {
    assert_eq!(parse_row(b" 0 12  -3\t4 "), Ok(vec![0, 12, -3, 4]));
    assert_eq!(parse_row(b""), Ok(vec![]));
    assert_eq!(parse_row(b"1 x 3"), Err(ParsingError::InvalidNumber));
    assert_eq!(parse_row(b"1 2.5"), Err(ParsingError::InvalidNumber));
    assert_eq!(parse_row(b"99999999999"), Err(ParsingError::InvalidNumber));
}

#[test]
fn full_matrices_are_read_row_by_row() {
    assert_eq!(
        parse_full_matrix(&lines("0 1 2\n 3 0 4 \n5 6 0")),
        Ok(vec![vec![0, 1, 2], vec![3, 0, 4], vec![5, 6, 0]])
    );
    assert_eq!(parse_full_matrix(&lines("")), Ok(vec![]));
    assert_eq!(
        parse_full_matrix(&lines("0 1\n1 zero")),
        Err(ParsingError::InvalidNumber)
    );
}

#[test]
fn half_matrices_fill_one_side() {
    // upper, without the diagonal
    assert_eq!(
        parse_half_matrix(&lines("1 2 3\n4 5\n6"), 4, true, false),
        Ok(vec![
            vec![0, 1, 2, 3],
            vec![0, 0, 4, 5],
            vec![0, 0, 0, 6],
            vec![0, 0, 0, 0],
        ])
    );
    // upper, with the diagonal
    assert_eq!(
        parse_half_matrix(&lines("9 1 2\n8 3\n7"), 3, true, true),
        Ok(vec![vec![9, 1, 2], vec![0, 8, 3], vec![0, 0, 7]])
    );
    // from the last row on
    assert_eq!(
        parse_half_matrix(&lines("1 2\n3"), 3, false, false),
        Ok(vec![vec![0, 0, 0], vec![0, 0, 3], vec![0, 1, 2]])
    );
    assert_eq!(parse_half_matrix(&lines(""), 2, true, true), Ok(vec![vec![0, 0], vec![0, 0]]));
}

#[test]
fn half_matrices_with_values_out_of_place_are_errors() {
    assert_eq!(
        parse_half_matrix(&lines("1 2 3 4"), 4, true, false),
        Err(ParsingError::MalformedData)
    );
    assert_eq!(
        parse_half_matrix(&lines("1\n2\n3"), 2, true, true),
        Err(ParsingError::MalformedData)
    );
    assert_eq!(
        parse_half_matrix(&lines("1\n2\n3"), 2, false, true),
        Err(ParsingError::MalformedData)
    );
    assert_eq!(
        parse_half_matrix(&lines("1 x"), 3, true, true),
        Err(ParsingError::InvalidNumber)
    );
}

#[test]
fn plain_matrix_files_name_their_size() {
    assert_eq!(
        parse_simple(&lines("3\n0 1 2\n3 0 4\n5 6 0\n")),
        Ok(vec![vec![0, 1, 2], vec![3, 0, 4], vec![5, 6, 0]])
    );
    // what follows the first numbers of a line, and the last lines, is left out
    assert_eq!(
        parse_simple(&lines("2\n0 1 junk\n1 0 7\n9 9\n")),
        Ok(vec![vec![0, 1], vec![1, 0]])
    );
    assert_eq!(parse_simple(&lines("0\n")), Ok(vec![]));
}

#[test]
fn plain_matrix_files_with_faults_are_errors() {
    assert_eq!(parse_simple(&lines("")), Err(ParsingError::MalformedData));
    assert_eq!(parse_simple(&lines("x\n")), Err(ParsingError::InvalidNumber));
    assert_eq!(parse_simple(&lines("2 2\n0 1\n1 0\n")), Err(ParsingError::MalformedData));
    assert_eq!(parse_simple(&lines("2\n0 1\n")), Err(ParsingError::MalformedData));
    assert_eq!(parse_simple(&lines("2\n0 1\n1\n")), Err(ParsingError::MalformedData));
    assert_eq!(parse_simple(&lines("2\n0 1\n1 x\n")), Err(ParsingError::InvalidNumber));
}

#[test]
fn tours_are_read_from_their_section() {
    let file = "NAME : a.tour\nTYPE : TOUR\nTOUR_SECTION\n1\n 3 \n2\n-1\nEOF\n";
    assert_eq!(parse_tour(&lines(file)), Ok(vec![0, 2, 1]));
    assert_eq!(find_line(&lines(file), 0, "TOUR_SECTION"), 2);
    assert_eq!(find_line(&lines(file), 3, "-1"), 6);
    assert_eq!(find_line(&lines(file), 0, "NONE"), 8);
    // to the end of the file where no line closes the tour
    assert_eq!(parse_tour(&lines("TOUR_SECTION\n2\n1")), Ok(vec![1, 0]));
    // no section, no tour
    assert_eq!(parse_tour(&lines("1\n2\n3\n")), Ok(vec![]));
    assert_eq!(parse_tour(&lines("")), Ok(vec![]));
}

#[test]
fn tours_with_faults_are_errors() {
    assert_eq!(parse_tour(&lines("TOUR_SECTION\n1\nx\n-1\n")), Err(ParsingError::InvalidNumber));
    assert_eq!(parse_tour(&lines("TOUR_SECTION\n1\n0\n-1\n")), Err(ParsingError::InvalidNumber));
    assert_eq!(parse_tour(&lines("TOUR_SECTION\n1 2\n-1\n")), Err(ParsingError::InvalidNumber));
    assert_eq!(parse_tour(&lines("TOUR_SECTION\n\n-1\n")), Err(ParsingError::InvalidNumber));
}

#[test]
fn headers_are_read_up_to_the_data() {
    let file = "NAME : small\nCOMMENT : three nodes\nTYPE : TSP\nDIMENSION : 3\n\
                EDGE_WEIGHT_TYPE : EXPLICIT\nEDGE_WEIGHT_FORMAT : FULL_MATRIX\n\
                EDGE_WEIGHT_SECTION\n0 1 2\n1 0 3\n2 3 0\nEOF\n";
    let all = lines(file);
    let header = parse_header(&all).unwrap();
    assert_eq!(header.name, b"small".to_vec());
    assert_eq!(header.dimension, 3);
    assert_eq!(header.format, WeightFormat::FullMatrix);
    assert_eq!(header.weight_type, b"EXPLICIT".to_vec());
    assert_eq!(header.data_start, 7);
    let problem = full_matrix_file(&header, &all).unwrap();
    assert_eq!(problem.name, "small");
    assert_eq!(problem.dimension, 3);
    assert_eq!(
        problem.distance_matrix,
        vec![vec![0, 1, 2], vec![1, 0, 3], vec![2, 3, 0]]
    );
}

#[test]
fn headers_have_defaults() {
    let header = parse_header(&lines("DIMENSION: 2\nNODE_COORD_SECTION\n1 0 0\n2 3 4\n")).unwrap();
    assert_eq!(header.name, b"".to_vec());
    assert_eq!(header.dimension, 2);
    assert_eq!(header.format, WeightFormat::Function);
    assert_eq!(header.weight_type, b"EUC_2D".to_vec());
    assert_eq!(header.data_start, 2);
    // the last line of a key counts
    let header = parse_header(&lines("DIMENSION: 2\nDIMENSION: 5\n NODE_COORD_SECTION \n")).unwrap();
    assert_eq!(header.dimension, 5);
}

#[test]
fn headers_with_faults_are_errors() {
    let error = |text: &str| parse_header(&lines(text)).unwrap_err();
    assert_eq!(error("NAME : x\nNODE_COORD_SECTION\n"), ParsingError::DimensionNotProvided);
    assert_eq!(
        error("DIMENSION : 3\nEDGE_WEIGHT_FORMAT : UPPER_ROW\nEDGE_WEIGHT_SECTION\n"),
        ParsingError::UnsupportedWeightFormat
    );
    assert_eq!(error("DIMENSION : three\nNODE_COORD_SECTION\n"), ParsingError::InvalidNumber);
    assert_eq!(error("DIMENSION : -3\nNODE_COORD_SECTION\n"), ParsingError::InvalidNumber);
    assert_eq!(error("DIMENSION 3\nNODE_COORD_SECTION\n"), ParsingError::MalformedHeader);
    assert_eq!(error("DIMENSION : 3\n"), ParsingError::MalformedData);
    assert_eq!(error(""), ParsingError::MalformedData);
    // the first fault counts
    assert_eq!(error("DIMENSION 3\nDIMENSION : x\n"), ParsingError::MalformedHeader);
    assert_eq!(error("DIMENSION : x\nDIMENSION 3\n"), ParsingError::InvalidNumber);
}

#[test]
fn full_matrix_files_need_a_line_for_each_node() {
    let all = lines("DIMENSION : 3\nEDGE_WEIGHT_FORMAT : FULL_MATRIX\nEDGE_WEIGHT_SECTION\n0 1\n1 0\n");
    let header = parse_header(&all).unwrap();
    assert_eq!(full_matrix_file(&header, &all).unwrap_err(), ParsingError::MalformedData);
    let all = lines("DIMENSION : 2\nEDGE_WEIGHT_FORMAT : FULL_MATRIX\nEDGE_WEIGHT_SECTION\n0 1\n1 o\n");
    let header = parse_header(&all).unwrap();
    assert_eq!(full_matrix_file(&header, &all).unwrap_err(), ParsingError::InvalidNumber);
}

#[test]
fn metrics_have_names() {
    assert_eq!(weight_type_of(b"EUC_2D"), Ok(WeightType::Euc2d));
    assert_eq!(weight_type_of(b"CEIL_2D"), Ok(WeightType::Ceil2d));
    assert_eq!(weight_type_of(b"MAN_2D"), Ok(WeightType::Man2d));
    assert_eq!(weight_type_of(b"MAX_2D"), Ok(WeightType::Max2d));
    assert_eq!(weight_type_of(b"GEO"), Ok(WeightType::Geo));
    assert_eq!(weight_type_of(b"ATT"), Err(ParsingError::UnsupportedWeightFormat));
    assert_eq!(weight_type_of(b""), Err(ParsingError::UnsupportedWeightFormat));
}

#[test]
fn errors_say_what_went_wrong() {
    assert_eq!(
        ParsingError::DimensionNotProvided.message(),
        "Parsing Error: no Dimension field"
    );
    assert_eq!(
        ParsingError::UnsupportedWeightFormat.message(),
        "Parsing Error: unsupported weight type or distance metric"
    );
    assert_eq!(ParsingError::InvalidNumber.message(), "Parsing Error: invalid number");
    assert_eq!(
        ParsingError::MalformedHeader.message(),
        "Parsing Error: header line without a colon"
    );
    assert_eq!(
        ParsingError::MalformedData.message(),
        "Parsing Error: data missing or out of place"
    );
}

#[test]
fn the_start_of_a_row_is_its_first_numbers() {
    assert_eq!(parse_row_start(b"1 2 3 x", 3), Ok(vec![1, 2, 3]));
    assert_eq!(parse_row_start(b"1 2 3", 0), Ok(vec![]));
    assert_eq!(parse_row_start(b"1 2", 3), Err(ParsingError::MalformedData));
    assert_eq!(parse_row_start(b"1 x 3", 3), Err(ParsingError::InvalidNumber));
    // too few words come before a word that is no number
    assert_eq!(parse_row_start(b"x 2", 3), Err(ParsingError::MalformedData));
}
