//! Problem files and tour files, read from their lines.

use vstd::prelude::*;
use vstd::slice::{slice_subrange, slice_to_vec};
use vstd::string::StringSliceAdditionalSpecFns;
use vstd::utf8::{decode_utf8, valid_utf8};
use crate::helpers::ParsingError;
use crate::model::scanned_before;
use crate::text::{
    is_word, number_within, parse_i32, parse_u32, parse_usize, spells, split_words, trim,
    trimmed, words_of,
};

verus! {

/// A problem read from a file.
#[derive(Debug, Clone)]
pub struct TspFile {
    pub name: String,
    pub dimension: usize,
    pub distance_matrix: Vec<Vec<i32>>,
}

/// The position of the first colon of `s` from `from` on, or the length
/// of `s` where there is none.
pub open spec fn first_colon(s: Seq<u8>, from: int) -> int
    decreases s.len() - from,
{
    if from >= s.len() {
        s.len() as int
    } else if s[from] == 58 {
        from
    } else {
        first_colon(s, from + 1)
    }
}

/// The key of a header line: what stands before its first colon, without
/// the blanks around it.
pub open spec fn key_of(line: Seq<u8>) -> Seq<u8> {
    trimmed(line.subrange(0, first_colon(line, 0)))
}

/// The value of a header line: what stands between its first colon and
/// the next one, or the end, without the blanks around it.
pub open spec fn value_of(line: Seq<u8>) -> Seq<u8> {
    let colon = first_colon(line, 0);
    trimmed(line.subrange(colon + 1, first_colon(line, colon + 1)))
}

/// The line has a colon.
pub open spec fn has_colon(line: Seq<u8>) -> bool {
    first_colon(line, 0) < line.len()
}

/// Every word of the line is a number that an `i32` holds.
pub open spec fn is_row(line: Seq<u8>) -> bool {
    forall|j: int|
        0 <= j < words_of(line).len() ==> number_within(
            #[trigger] words_of(line)[j],
            i32::MIN as int,
            i32::MAX as int,
        ) is Some
}

/// The numbers that the words of the line stand for.
pub open spec fn row_of(line: Seq<u8>) -> Seq<i32> {
    Seq::new(
        words_of(line).len(),
        |j: int| number_within(words_of(line)[j], i32::MIN as int, i32::MAX as int)->0 as i32,
    )
}

/// The position of the first colon of `line` from `from` on, or the
/// length of `line`.
pub fn find_colon(line: &[u8], from: usize) -> (at: usize)
    requires
        from <= line.len(),
    ensures
        at == first_colon(line@, from as int),
        from <= at <= line.len(),
{
    let mut at: usize = from;
    while at < line.len() && line[at] != 58
        invariant
            from <= at <= line.len(),
            first_colon(line@, from as int) == first_colon(line@, at as int),
        decreases line.len() - at,
    {
        at += 1;
    }
    at
}

/// The key and the value of a header line, or `None` where the line has
/// no colon.
pub fn parse_line(line: &[u8]) -> (r: Option<(Vec<u8>, Vec<u8>)>)
    ensures
        r is Some <==> has_colon(line@),
        r is Some ==> (r->0).0@ == key_of(line@) && (r->0).1@ == value_of(line@),
{
    let colon: usize = find_colon(line, 0);
    if colon >= line.len() {
        return None;
    }
    let end: usize = find_colon(line, colon + 1);
    let key: Vec<u8> = trim(slice_subrange(line, 0, colon));
    let val: Vec<u8> = trim(slice_subrange(line, colon + 1, end));
    Some((key, val))
}

/// The numbers of a line, or the error that one of its words is none.
pub fn parse_row(line: &[u8]) -> (r: Result<Vec<i32>, ParsingError>)
    ensures
        r is Ok <==> is_row(line@),
        r is Ok ==> r->Ok_0@ == row_of(line@),
        r is Err ==> r->Err_0 == ParsingError::InvalidNumber,
{
    let words: Vec<Vec<u8>> = split_words(line);
    let ghost all = words_of(line@);
    let mut row: Vec<i32> = Vec::new();
    let mut j: usize = 0;
    while j < words.len()
        invariant
            j <= words.len(),
            words.deep_view() == all,
            all == words_of(line@),
            row.len() == j,
            forall|k: int|
                0 <= k < j ==> number_within(#[trigger] all[k], i32::MIN as int, i32::MAX as int)
                    == Some(row[k] as int),
        decreases words.len() - j,
    {
        assert(words[j as int]@ =~= all[j as int]);
        match parse_i32(words[j].as_slice()) {
            Some(v) => row.push(v),
            None => {
                return Err(ParsingError::InvalidNumber);
            },
        }
        j += 1;
    }
    assert(row@ =~= row_of(line@));
    Ok(row)
}

/// A matrix given row by row: the numbers of each line are a row.
pub fn parse_full_matrix(lines: &[Vec<u8>]) -> (r: Result<Vec<Vec<i32>>, ParsingError>)
    ensures
        r is Ok <==> forall|i: int| 0 <= i < lines.len() ==> is_row(#[trigger] lines[i]@),
        r is Ok ==> {
            &&& r->Ok_0.len() == lines.len()
            &&& forall|i: int|
                0 <= i < lines.len() ==> (#[trigger] r->Ok_0[i])@ == row_of(lines[i]@)
        },
        r is Err ==> r->Err_0 == ParsingError::InvalidNumber,
{
    let mut d_matrix: Vec<Vec<i32>> = Vec::new();
    let mut i: usize = 0;
    while i < lines.len()
        invariant
            i <= lines.len(),
            d_matrix.len() == i,
            forall|k: int| 0 <= k < i ==> is_row(#[trigger] lines[k]@),
            forall|k: int| 0 <= k < i ==> (#[trigger] d_matrix[k])@ == row_of(lines[k]@),
        decreases lines.len() - i,
    {
        match parse_row(lines[i].as_slice()) {
            Ok(row) => d_matrix.push(row),
            Err(e) => {
                return Err(e);
            },
        }
        i += 1;
    }
    Ok(d_matrix)
}

/// The first `n` words of the line are numbers that an `i32` holds.
pub open spec fn starts_with_numbers(line: Seq<u8>, n: int) -> bool {
    &&& words_of(line).len() >= n
    &&& forall|j: int|
        0 <= j < n ==> number_within(
            #[trigger] words_of(line)[j],
            i32::MIN as int,
            i32::MAX as int,
        ) is Some
}

/// The number of nodes that the first line of a plain matrix file names:
/// its one word, where that is a number that a `usize` holds.
pub open spec fn plain_size(lines: Seq<Seq<u8>>) -> Option<int> {
    if lines.len() > 0 && words_of(lines[0]).len() == 1 {
        number_within(words_of(lines[0])[0], 0, usize::MAX as int)
    } else {
        None
    }
}

/// The lines are a plain matrix file: a line with the number of nodes,
/// then for each node a line that starts with its costs to all nodes.
pub open spec fn is_plain_matrix(lines: Seq<Seq<u8>>) -> bool {
    &&& plain_size(lines) is Some
    &&& lines.len() > plain_size(lines)->0
    &&& forall|i: int|
        0 <= i < plain_size(lines)->0 ==> starts_with_numbers(
            #[trigger] lines[i + 1],
            plain_size(lines)->0,
        )
}

/// What is wrong with a line that should start with `n` numbers: it
/// has fewer words, or one of the first `n` is no number.
pub open spec fn row_fault(line: Seq<u8>, n: int) -> Option<ParsingError> {
    if words_of(line).len() < n {
        Some(ParsingError::MalformedData)
    } else if starts_with_numbers(line, n) {
        None
    } else {
        Some(ParsingError::InvalidNumber)
    }
}

/// What is wrong with the first of the lines `1..=k` that does not start
/// with `n` numbers.
pub open spec fn rows_fault(lines: Seq<Seq<u8>>, n: int, k: int) -> Option<ParsingError>
    decreases k,
{
    if k <= 0 {
        None
    } else {
        match rows_fault(lines, n, k - 1) {
            Some(e) => Some(e),
            None => row_fault(lines[k], n),
        }
    }
}

/// What is wrong with lines that are no plain matrix file: the fault of
/// the first line, else that lines are missing, else the fault of the
/// first row that has one.
pub open spec fn plain_matrix_fault(lines: Seq<Seq<u8>>) -> Option<ParsingError> {
    if lines.len() == 0 || words_of(lines[0]).len() != 1 {
        Some(ParsingError::MalformedData)
    } else if plain_size(lines) is None {
        Some(ParsingError::InvalidNumber)
    } else if lines.len() <= plain_size(lines)->0 {
        Some(ParsingError::MalformedData)
    } else {
        rows_fault(lines, plain_size(lines)->0, plain_size(lines)->0)
    }
}

/// A fault among the first rows is the fault among more rows.
pub proof fn lemma_fault_stays(lines: Seq<Seq<u8>>, n: int, k: int, more: int)
    requires
        k <= more,
        rows_fault(lines, n, k) is Some,
    ensures
        rows_fault(lines, n, more) == rows_fault(lines, n, k),
    decreases more - k,
{
    if k < more {
        lemma_fault_stays(lines, n, k, more - 1);
    }
}

/// The first `n` numbers of a line.
pub fn parse_row_start(line: &[u8], n: usize) -> (r: Result<Vec<i32>, ParsingError>)
    ensures
        r is Ok <==> starts_with_numbers(line@, n as int),
        r is Ok ==> r->Ok_0@ == row_of(line@).take(n as int),
        r is Err ==> row_fault(line@, n as int) == Some(r->Err_0),
{
    let words: Vec<Vec<u8>> = split_words(line);
    let ghost all = words_of(line@);
    if words.len() < n {
        return Err(ParsingError::MalformedData);
    }
    let mut row: Vec<i32> = Vec::new();
    let mut j: usize = 0;
    while j < n
        invariant
            j <= n <= words.len(),
            words.deep_view() == all,
            all == words_of(line@),
            row.len() == j,
            forall|k: int|
                0 <= k < j ==> number_within(#[trigger] all[k], i32::MIN as int, i32::MAX as int)
                    == Some(row[k] as int),
        decreases n - j,
    {
        assert(words[j as int]@ =~= all[j as int]);
        match parse_i32(words[j].as_slice()) {
            Some(v) => row.push(v),
            None => {
                return Err(ParsingError::InvalidNumber);
            },
        }
        j += 1;
    }
    assert(row@ =~= row_of(line@).take(n as int));
    Ok(row)
}

/// A matrix from the lines of a plain matrix file: the first line names
/// the number of nodes, and each of the lines that follow starts with the
/// costs from one node to all nodes.
pub fn parse_simple(lines: &[Vec<u8>]) -> (r: Result<Vec<Vec<i32>>, ParsingError>)
    ensures
        r is Ok <==> is_plain_matrix(lines.deep_view()),
        r is Ok ==> {
            let n = plain_size(lines.deep_view())->0;
            &&& r->Ok_0.len() == n
            &&& forall|i: int|
                0 <= i < n ==> (#[trigger] r->Ok_0[i])@ == row_of(lines[i + 1]@).take(n)
        },
        r is Err ==> plain_matrix_fault(lines.deep_view()) == Some(r->Err_0),
{
    let ghost text = lines.deep_view();
    assert forall|i: int| 0 <= i < lines.len() implies #[trigger] text[i] == lines[i]@ by {
        assert(text[i] =~= lines[i]@);
    }
    if lines.len() == 0 {
        return Err(ParsingError::MalformedData);
    }
    let first: Vec<Vec<u8>> = split_words(lines[0].as_slice());
    if first.len() != 1 {
        return Err(ParsingError::MalformedData);
    }
    assert(first[0]@ =~= words_of(lines[0]@)[0]);
    let n: usize = match parse_usize(first[0].as_slice()) {
        Some(n) => n,
        None => {
            return Err(ParsingError::InvalidNumber);
        },
    };
    if lines.len() - 1 < n {
        return Err(ParsingError::MalformedData);
    }
    let mut distance_matrix: Vec<Vec<i32>> = Vec::new();
    let mut i: usize = 0;
    while i < n
        invariant
            i <= n < lines.len(),
            text == lines.deep_view(),
            forall|k: int| 0 <= k < lines.len() ==> #[trigger] text[k] == lines[k]@,
            plain_size(text) == Some(n as int),
            distance_matrix.len() == i,
            rows_fault(text, n as int, i as int) is None,
            forall|k: int| 0 <= k < i ==> starts_with_numbers(#[trigger] text[k + 1], n as int),
            forall|k: int|
                0 <= k < i ==> (#[trigger] distance_matrix[k])@ == row_of(lines[k + 1]@).take(
                    n as int,
                ),
        decreases n - i,
    {
        match parse_row_start(lines[i + 1].as_slice(), n) {
            Ok(row) => distance_matrix.push(row),
            Err(e) => {
                assert(!starts_with_numbers(text[i + 1], n as int));
                proof {
                    lemma_fault_stays(text, n as int, i + 1, n as int);
                }
                return Err(e);
            },
        }
        i += 1;
    }
    Ok(distance_matrix)
}

/// The position of the first line from `from` on that is `word` with
/// blanks around it, or the number of lines where there is none.
pub open spec fn first_line_spelling(lines: Seq<Seq<u8>>, from: int, word: &str) -> int
    decreases lines.len() - from,
{
    if from >= lines.len() {
        lines.len() as int
    } else if spells(trimmed(lines[from]), word) {
        from
    } else {
        first_line_spelling(lines, from + 1, word)
    }
}

/// The position of the first line from `from` on that is `word` with
/// blanks around it, or the number of lines.
pub fn find_line(lines: &[Vec<u8>], from: usize, word: &str) -> (at: usize)
    requires
        from <= lines.len(),
    ensures
        at == first_line_spelling(lines.deep_view(), from as int, word),
        from <= at <= lines.len(),
{
    let ghost text = lines.deep_view();
    let mut at: usize = from;
    while at < lines.len()
        invariant
            from <= at <= lines.len(),
            text == lines.deep_view(),
            first_line_spelling(text, from as int, word) == first_line_spelling(
                text,
                at as int,
                word,
            ),
        decreases lines.len() - at,
    {
        let line: Vec<u8> = trim(lines[at].as_slice());
        assert(text[at as int] =~= lines[at as int]@);
        if is_word(line.as_slice(), word) {
            return at;
        }
        at += 1;
    }
    at
}

/// The position of the first line of a tour: after the line that opens
/// the tour section, or the number of lines where there is none.
pub open spec fn tour_start(lines: Seq<Seq<u8>>) -> int {
    let mark = first_line_spelling(lines, 0, "TOUR_SECTION");
    if mark < lines.len() {
        mark + 1
    } else {
        mark
    }
}

/// The position after the last line of a tour: that of the line `-1`
/// that closes it, or the number of lines where there is none.
pub open spec fn tour_end(lines: Seq<Seq<u8>>) -> int {
    first_line_spelling(lines, tour_start(lines), "-1")
}

/// The node that a line of a tour names, counted from 1.
pub open spec fn node_named(line: Seq<u8>) -> Option<int> {
    number_within(trimmed(line), 1, u32::MAX as int)
}

/// The tour of a tour file: the nodes that the lines of its tour section
/// name, one on each line and counted from 1, here counted from 0. The
/// section ends with the line `-1` or with the file.
pub fn parse_tour(lines: &[Vec<u8>]) -> (r: Result<Vec<u32>, ParsingError>)
    ensures
        r is Ok <==> forall|i: int|
            tour_start(lines.deep_view()) <= i < tour_end(lines.deep_view()) ==> node_named(
                #[trigger] lines.deep_view()[i],
            ) is Some,
        r is Ok ==> {
            let start = tour_start(lines.deep_view());
            &&& r->Ok_0.len() == tour_end(lines.deep_view()) - start
            &&& forall|k: int|
                0 <= k < r->Ok_0.len() ==> node_named(lines.deep_view()[start + k]) == Some(
                    #[trigger] r->Ok_0[k] + 1,
                )
        },
        r is Err ==> r->Err_0 == ParsingError::InvalidNumber,
{
    let ghost text = lines.deep_view();
    let mark: usize = find_line(lines, 0, "TOUR_SECTION");
    let start: usize = if mark < lines.len() { mark + 1 } else { mark };
    let end: usize = find_line(lines, start, "-1");

    let mut path: Vec<u32> = Vec::new();

    //parse path
    let mut i: usize = start;
    while i < end
        invariant
            start <= i <= end <= lines.len(),
            text == lines.deep_view(),
            start == tour_start(text),
            end == tour_end(text),
            path.len() == i - start,
            forall|k: int| start <= k < i ==> node_named(#[trigger] text[k]) is Some,
            forall|k: int|
                0 <= k < path.len() ==> node_named(text[start + k]) == Some(#[trigger] path[k] + 1),
        decreases end - i,
    {
        let line: Vec<u8> = trim(lines[i].as_slice());
        assert(text[i as int] =~= lines[i as int]@);
        match parse_u32(line.as_slice()) {
            Some(id) => {
                if id == 0 {
                    return Err(ParsingError::InvalidNumber);
                }
                path.push(id - 1);
            },
            None => {
                return Err(ParsingError::InvalidNumber);
            },
        }
        i += 1;
    }

    Ok(path)
}

/// How a problem file gives its weights.
#[derive(Debug, Clone, Copy, PartialEq, Eq, Structural)]
pub enum WeightFormat {
    /// By the coordinates of the nodes and a metric.
    Function,
    /// By the full matrix.
    FullMatrix,
}

/// The metric by which weights are had from coordinates.
#[derive(Debug, Clone, Copy, PartialEq, Eq, Structural)]
pub enum WeightType {
    /// Euclidean, rounded down.
    Euc2d,
    /// Euclidean, rounded to the nearest.
    Ceil2d,
    /// Manhattan.
    Man2d,
    /// Maximum.
    Max2d,
    /// Geographical.
    Geo,
}

/// What the header of a problem file says.
#[derive(Debug)]
pub struct TspHeader {
    /// The name of the problem; empty where the header gives none.
    pub name: Vec<u8>,
    /// The number of nodes.
    pub dimension: usize,
    /// How the weights are given.
    pub format: WeightFormat,
    /// The name of the metric.
    pub weight_type: Vec<u8>,
    /// The position of the first line of data.
    pub data_start: usize,
}

/// What the lines of a header have said so far.
pub struct HeaderFields {
    pub dimension: Option<u32>,
    pub name: Seq<u8>,
    pub format: Seq<u8>,
    pub weight_type: Seq<u8>,
}

/// The line opens the data of a problem file.
pub open spec fn opens_data(line: Seq<u8>) -> bool {
    spells(trimmed(line), "NODE_COORD_SECTION") || spells(trimmed(line), "EDGE_WEIGHT_SECTION")
}

/// The position of the first line that opens the data, or the number of
/// lines where there is none.
pub open spec fn header_end(lines: Seq<Seq<u8>>, from: int) -> int
    decreases lines.len() - from,
{
    if from >= lines.len() {
        lines.len() as int
    } else if opens_data(lines[from]) {
        from
    } else {
        header_end(lines, from + 1)
    }
}

/// What a header says before its first line.
pub open spec fn no_fields() -> HeaderFields {
    HeaderFields {
        dimension: None,
        name: Seq::empty(),
        format: "FUNCTION".spec_bytes(),
        weight_type: "EUC_2D".spec_bytes(),
    }
}

/// What a header says after one more line: the line sets the field that
/// its key names, and says nothing where its key names none.
pub open spec fn with_line(fields: HeaderFields, line: Seq<u8>) -> Result<
    HeaderFields,
    ParsingError,
> {
    if !has_colon(line) {
        Err(ParsingError::MalformedHeader)
    } else if spells(key_of(line), "DIMENSION") {
        match number_within(value_of(line), 0, u32::MAX as int) {
            Some(v) => Ok(HeaderFields { dimension: Some(v as u32), ..fields }),
            None => Err(ParsingError::InvalidNumber),
        }
    } else if spells(key_of(line), "NAME") {
        Ok(HeaderFields { name: value_of(line), ..fields })
    } else if spells(key_of(line), "EDGE_WEIGHT_FORMAT") {
        Ok(HeaderFields { format: value_of(line), ..fields })
    } else if spells(key_of(line), "EDGE_WEIGHT_TYPE") {
        Ok(HeaderFields { weight_type: value_of(line), ..fields })
    } else {
        Ok(fields)
    }
}

/// What the first `k` lines of a header say, or the first error in them.
pub open spec fn fields_read(lines: Seq<Seq<u8>>, k: int) -> Result<HeaderFields, ParsingError>
    decreases k,
{
    if k <= 0 {
        Ok(no_fields())
    } else {
        match fields_read(lines, k - 1) {
            Ok(fields) => with_line(fields, lines[k - 1]),
            Err(e) => Err(e),
        }
    }
}

/// The format that a name stands for.
pub open spec fn format_named(name: Seq<u8>) -> Option<WeightFormat> {
    if spells(name, "FUNCTION") {
        Some(WeightFormat::Function)
    } else if spells(name, "FULL_MATRIX") {
        Some(WeightFormat::FullMatrix)
    } else {
        None
    }
}

/// The metric that a name stands for.
pub open spec fn metric_named(name: Seq<u8>) -> Option<WeightType> {
    if spells(name, "EUC_2D") {
        Some(WeightType::Euc2d)
    } else if spells(name, "CEIL_2D") {
        Some(WeightType::Ceil2d)
    } else if spells(name, "MAN_2D") {
        Some(WeightType::Man2d)
    } else if spells(name, "MAX_2D") {
        Some(WeightType::Max2d)
    } else if spells(name, "GEO") {
        Some(WeightType::Geo)
    } else {
        None
    }
}

/// The metric that a name stands for, or the error that it stands for
/// none.
pub fn weight_type_of(name: &[u8]) -> (r: Result<WeightType, ParsingError>)
    ensures
        r == match metric_named(name@) {
            Some(metric) => Ok::<WeightType, ParsingError>(metric),
            None => Err::<WeightType, ParsingError>(ParsingError::UnsupportedWeightFormat),
        },
{
    if is_word(name, "EUC_2D") {
        Ok(WeightType::Euc2d)
    } else if is_word(name, "CEIL_2D") {
        Ok(WeightType::Ceil2d)
    } else if is_word(name, "MAN_2D") {
        Ok(WeightType::Man2d)
    } else if is_word(name, "MAX_2D") {
        Ok(WeightType::Max2d)
    } else if is_word(name, "GEO") {
        Ok(WeightType::Geo)
    } else {
        Err(ParsingError::UnsupportedWeightFormat)
    }
}

/// What reading the header of the lines comes to: the first error in the
/// lines before the data; else the error that the data is never opened,
/// that no dimension is named, or that the format is not known; else what
/// the header says.
pub open spec fn header_of(lines: Seq<Seq<u8>>) -> Result<
    (HeaderFields, WeightFormat, int),
    ParsingError,
> {
    let end = header_end(lines, 0);
    match fields_read(lines, end) {
        Err(e) => Err(e),
        Ok(fields) => if end >= lines.len() {
            Err(ParsingError::MalformedData)
        } else if fields.dimension is None {
            Err(ParsingError::DimensionNotProvided)
        } else {
            match format_named(fields.format) {
                None => Err(ParsingError::UnsupportedWeightFormat),
                Some(format) => Ok((fields, format, end + 1)),
            }
        },
    }
}

/// The header ends at or after the line from which its end is sought.
pub proof fn lemma_header_end_bounds(lines: Seq<Seq<u8>>, from: int)
    requires
        0 <= from <= lines.len(),
    ensures
        from <= header_end(lines, from) <= lines.len(),
    decreases lines.len() - from,
{
    if from < lines.len() && !opens_data(lines[from]) {
        lemma_header_end_bounds(lines, from + 1);
    }
}

/// An error in the first lines of a header is the error of every longer
/// stretch of it.
pub proof fn lemma_error_stays(lines: Seq<Seq<u8>>, k: int, longer: int)
    requires
        k <= longer,
        fields_read(lines, k) is Err,
    ensures
        fields_read(lines, longer) == fields_read(lines, k),
    decreases longer - k,
{
    if k < longer {
        lemma_error_stays(lines, k, longer - 1);
    }
}

/// Reads the header of a problem file: the lines `KEY : VALUE` up to the
/// line that opens the data.
pub fn parse_header(lines: &[Vec<u8>]) -> (r: Result<TspHeader, ParsingError>)
    ensures
        match header_of(lines.deep_view()) {
            Err(e) => r == Err::<TspHeader, ParsingError>(e),
            Ok((fields, format, data_start)) => {
                &&& r is Ok
                &&& r->Ok_0.name@ == fields.name
                &&& Some(r->Ok_0.dimension as u32) == fields.dimension
                &&& r->Ok_0.dimension <= u32::MAX
                &&& r->Ok_0.format == format
                &&& r->Ok_0.weight_type@ == fields.weight_type
                &&& r->Ok_0.data_start == data_start
            },
        },
{
    let ghost text = lines.deep_view();
    let mut dimension: Option<u32> = None;
    let mut name: Vec<u8> = Vec::new();
    let mut edge_wf: Vec<u8> = slice_to_vec("FUNCTION".as_bytes());
    let mut edge_wt: Vec<u8> = slice_to_vec("EUC_2D".as_bytes());

    let mut weights_i: usize = 0;

    loop
        invariant
            weights_i <= lines.len(),
            text == lines.deep_view(),
            header_end(text, 0) == header_end(text, weights_i as int),
            fields_read(text, weights_i as int) == Ok::<HeaderFields, ParsingError>(
                HeaderFields {
                    dimension,
                    name: name@,
                    format: edge_wf@,
                    weight_type: edge_wt@,
                },
            ),
        ensures
            weights_i < lines.len(),
            weights_i == header_end(text, 0),
            fields_read(text, weights_i as int) == Ok::<HeaderFields, ParsingError>(
                HeaderFields {
                    dimension,
                    name: name@,
                    format: edge_wf@,
                    weight_type: edge_wt@,
                },
            ),
        decreases lines.len() - weights_i,
    {
        if weights_i >= lines.len() {
            return Err(ParsingError::MalformedData);
        }
        let line: Vec<u8> = trim(lines[weights_i].as_slice());
        assert(text[weights_i as int] =~= lines[weights_i as int]@);
        if is_word(line.as_slice(), "NODE_COORD_SECTION") || is_word(
            line.as_slice(),
            "EDGE_WEIGHT_SECTION",
        ) {
            break ;
        }
        let (key, val) = match parse_line(lines[weights_i].as_slice()) {
            Some(pair) => pair,
            None => {
                proof {
                    lemma_header_end_bounds(text, weights_i + 1);
                    lemma_error_stays(text, weights_i + 1, header_end(text, 0));
                }
                return Err(ParsingError::MalformedHeader);
            },
        };

        if is_word(key.as_slice(), "DIMENSION") {
            match parse_u32(val.as_slice()) {
                Some(v) => {
                    dimension = Some(v);
                },
                None => {
                    proof {
                        lemma_header_end_bounds(text, weights_i + 1);
                        lemma_error_stays(text, weights_i + 1, header_end(text, 0));
                    }
                    return Err(ParsingError::InvalidNumber);
                },
            }
        } else if is_word(key.as_slice(), "NAME") {
            name = val;
        } else if is_word(key.as_slice(), "EDGE_WEIGHT_FORMAT") {
            edge_wf = val;
        } else if is_word(key.as_slice(), "EDGE_WEIGHT_TYPE") {
            edge_wt = val;
        }
        weights_i += 1;
    }

    //return error if we don't have a dimension provided
    let dimension: u32 = match dimension {
        Some(v) => v,
        None => {
            return Err(ParsingError::DimensionNotProvided);
        },
    };
    let format: WeightFormat = if is_word(edge_wf.as_slice(), "FUNCTION") {
        WeightFormat::Function
    } else if is_word(edge_wf.as_slice(), "FULL_MATRIX") {
        WeightFormat::FullMatrix
    } else {
        return Err(ParsingError::UnsupportedWeightFormat);
    };
    Ok(
        TspHeader {
            name,
            dimension: dimension as usize,
            format,
            weight_type: edge_wt,
            data_start: weights_i + 1,
        },
    )
}

/// The row of the matrix that line `row` of a half matrix fills.
pub open spec fn half_row(dim: int, upper: bool, row: int) -> int {
    if upper {
        row
    } else {
        dim - 1 - row
    }
}

/// The column of the matrix that word `i` of line `row` of a half matrix
/// fills.
pub open spec fn half_column(diag: bool, row: int, i: int) -> int {
    if diag {
        row + i
    } else {
        row + i + 1
    }
}

/// Word `i` of line `row` is a number that an `i32` holds, and has its
/// place in the matrix.
pub open spec fn fills_cell(
    lines: Seq<Seq<u8>>,
    dim: int,
    upper: bool,
    diag: bool,
    row: int,
    i: int,
) -> bool {
    &&& 0 <= half_row(dim, upper, row) < dim
    &&& half_column(diag, row, i) < dim
    &&& number_within(words_of(lines[row])[i], i32::MIN as int, i32::MAX as int) is Some
}

/// What is wrong with word `i` of line `row` where it fills no cell: it
/// has no place in the matrix, or it is no number.
pub open spec fn cell_fault(
    lines: Seq<Seq<u8>>,
    dim: int,
    upper: bool,
    diag: bool,
    row: int,
    i: int,
) -> Option<ParsingError> {
    if !(0 <= half_row(dim, upper, row) < dim && half_column(diag, row, i) < dim) {
        Some(ParsingError::MalformedData)
    } else if fills_cell(lines, dim, upper, diag, row, i) {
        None
    } else {
        Some(ParsingError::InvalidNumber)
    }
}

/// Every word of every line fills a cell.
pub open spec fn is_half_matrix(lines: Seq<Seq<u8>>, dim: int, upper: bool, diag: bool) -> bool {
    forall|row: int, i: int|
        0 <= row < lines.len() && 0 <= i < words_of(lines[row]).len() ==> #[trigger] fills_cell(
            lines,
            dim,
            upper,
            diag,
            row,
            i,
        )
}

/// What the cell in row `x` and column `y` holds after the words before
/// word `j` of line `r` have been read: the number of the word that fills
/// it, or 0 where none does.
pub open spec fn half_cell(
    lines: Seq<Seq<u8>>,
    dim: int,
    upper: bool,
    diag: bool,
    r: int,
    j: int,
    x: int,
    y: int,
) -> int {
    let row = half_row(dim, upper, x);
    let i = if diag {
        y - row
    } else {
        y - row - 1
    };
    if 0 <= row && 0 <= i && (row < r || (row == r && i < j)) && row < lines.len() && i < words_of(
        lines[row],
    ).len() {
        number_within(words_of(lines[row])[i], i32::MIN as int, i32::MAX as int)->0
    } else {
        0
    }
}

/// A matrix of `dim` rows and columns of which the lines give one half:
/// line `row` gives the cells of one row from the diagonal on, or from
/// the cell after it where `diag` is false. With `upper` the lines fill
/// the rows from the first on, else from the last on. The other cells
/// are 0.
pub fn parse_half_matrix(lines: &[Vec<u8>], dim: usize, upper: bool, diag: bool) -> (r: Result<
    Vec<Vec<i32>>,
    ParsingError,
>)
    ensures
        r is Ok <==> is_half_matrix(lines.deep_view(), dim as int, upper, diag),
        r is Ok ==> {
            &&& r->Ok_0.len() == dim
            &&& forall|x: int| 0 <= x < dim ==> (#[trigger] r->Ok_0[x]).len() == dim
            &&& forall|x: int, y: int|
                0 <= x < dim && 0 <= y < dim ==> #[trigger] r->Ok_0[x][y] == half_cell(
                    lines.deep_view(),
                    dim as int,
                    upper,
                    diag,
                    lines.len() as int,
                    0,
                    x,
                    y,
                )
        },
        r is Err ==> exists|row: int, i: int|
            {
                &&& 0 <= row < lines.len()
                &&& 0 <= i < words_of(lines.deep_view()[row]).len()
                &&& #[trigger] cell_fault(lines.deep_view(), dim as int, upper, diag, row, i)
                    == Some(r->Err_0)
                &&& forall|x: int, y: int|
                    0 <= x < lines.len() && 0 <= y < words_of(lines.deep_view()[x]).len()
                        && scanned_before(x, y, row, i) ==> #[trigger] fills_cell(
                        lines.deep_view(),
                        dim as int,
                        upper,
                        diag,
                        x,
                        y,
                    )
            },
{
    let ghost text = lines.deep_view();
    let mut d_matrix: Vec<Vec<i32>> = Vec::new();
    let mut x: usize = 0;
    while x < dim
        invariant
            x <= dim,
            d_matrix.len() == x,
            forall|k: int| 0 <= k < x ==> (#[trigger] d_matrix[k]).len() == dim,
            forall|k: int, y: int| 0 <= k < x && 0 <= y < dim ==> #[trigger] d_matrix[k][y] == 0,
        decreases dim - x,
    {
        let zeros: Vec<i32> = vec![0; dim];
        d_matrix.push(zeros);
        x += 1;
    }

    let mut row: usize = 0;
    while row < lines.len()
        invariant
            row <= lines.len(),
            text == lines.deep_view(),
            d_matrix.len() == dim,
            forall|k: int| 0 <= k < dim ==> (#[trigger] d_matrix[k]).len() == dim,
            forall|r: int, i: int|
                0 <= r < row && 0 <= i < words_of(text[r]).len() ==> #[trigger] fills_cell(
                    text,
                    dim as int,
                    upper,
                    diag,
                    r,
                    i,
                ),
            forall|x: int, y: int|
                0 <= x < dim && 0 <= y < dim ==> #[trigger] d_matrix[x][y] == half_cell(
                    text,
                    dim as int,
                    upper,
                    diag,
                    row as int,
                    0,
                    x,
                    y,
                ),
        decreases lines.len() - row,
    {
        let tokens: Vec<Vec<u8>> = split_words(lines[row].as_slice());
        assert(text[row as int] =~= lines[row as int]@);
        let mut i: usize = 0;
        while i < tokens.len()
            invariant
                row < lines.len(),
                i <= tokens.len(),
                text == lines.deep_view(),
                tokens.deep_view() == words_of(text[row as int]),
                d_matrix.len() == dim,
                forall|k: int| 0 <= k < dim ==> (#[trigger] d_matrix[k]).len() == dim,
                forall|r: int, w: int|
                    0 <= r < row && 0 <= w < words_of(text[r]).len() ==> #[trigger] fills_cell(
                        text,
                        dim as int,
                        upper,
                        diag,
                        r,
                        w,
                    ),
                forall|w: int|
                    0 <= w < i ==> #[trigger] fills_cell(
                        text,
                        dim as int,
                        upper,
                        diag,
                        row as int,
                        w,
                    ),
                forall|x: int, y: int|
                    0 <= x < dim && 0 <= y < dim ==> #[trigger] d_matrix[x][y] == half_cell(
                        text,
                        dim as int,
                        upper,
                        diag,
                        row as int,
                        i as int,
                        x,
                        y,
                    ),
            decreases tokens.len() - i,
        {
            assert(tokens[i as int]@ =~= words_of(text[row as int])[i as int]);
            if !upper && row >= dim {
                assert(!fills_cell(text, dim as int, upper, diag, row as int, i as int));
                assert(cell_fault(text, dim as int, upper, diag, row as int, i as int) == Some(
                    ParsingError::MalformedData,
                ));
                return Err(ParsingError::MalformedData);
            }
            let offset_x: usize = match upper {
                true => row,
                false => dim - 1 - row,
            };
            if offset_x >= dim || i >= dim || row >= dim - i || (!diag && row + i + 1 >= dim) {
                assert(!fills_cell(text, dim as int, upper, diag, row as int, i as int));
                assert(cell_fault(text, dim as int, upper, diag, row as int, i as int) == Some(
                    ParsingError::MalformedData,
                ));
                return Err(ParsingError::MalformedData);
            }
            let offset_y: usize = match diag {
                true => row + i,
                false => row + i + 1,
            };
            let v: i32 = match parse_i32(tokens[i].as_slice()) {
                Some(v) => v,
                None => {
                    assert(!fills_cell(text, dim as int, upper, diag, row as int, i as int));
                    assert(cell_fault(text, dim as int, upper, diag, row as int, i as int)
                        == Some(ParsingError::InvalidNumber));
                    return Err(ParsingError::InvalidNumber);
                },
            };
            d_matrix[offset_x][offset_y] = v;
            i += 1;
        }
        row += 1;
    }
    assert(is_half_matrix(text, dim as int, upper, diag));
    Ok(d_matrix)
}

/// `String::from_utf8_lossy`, made a `String`: the text that the bytes
/// encode, where they are valid UTF-8. Nothing is stated of other bytes.
#[verifier::external_body]
fn text_of(bytes: &[u8]) -> (text: String)
    ensures
        valid_utf8(bytes@) ==> text@ == decode_utf8(bytes@),
{
    String::from_utf8_lossy(bytes).into_owned()
}

/// The problem of a file that gives its weights as a full matrix: the
/// name and the dimension of the header, and the rows that the lines of
/// data give, one line for each node.
pub fn full_matrix_file(header: &TspHeader, lines: &[Vec<u8>]) -> (r: Result<TspFile, ParsingError>)
    ensures
        r is Ok <==> {
            &&& header.data_start + header.dimension <= lines.len()
            &&& forall|i: int|
                header.data_start <= i < header.data_start + header.dimension ==> is_row(
                    #[trigger] lines[i]@,
                )
        },
        r is Ok ==> {
            let file = r->Ok_0;
            &&& file.dimension == header.dimension
            &&& valid_utf8(header.name@) ==> file.name@ == decode_utf8(header.name@)
            &&& file.distance_matrix.len() == header.dimension
            &&& forall|i: int|
                0 <= i < header.dimension ==> (#[trigger] file.distance_matrix[i])@ == row_of(
                    lines[header.data_start + i]@,
                )
        },
        r is Err ==> r->Err_0 == if header.data_start + header.dimension <= lines.len() {
            ParsingError::InvalidNumber
        } else {
            ParsingError::MalformedData
        },
{
    let start: usize = header.data_start;
    let dimension: usize = header.dimension;
    if start > lines.len() || lines.len() - start < dimension {
        return Err(ParsingError::MalformedData);
    }
    let data: &[Vec<u8>] = slice_subrange(lines, start, start + dimension);
    assert forall|i: int| 0 <= i < dimension implies #[trigger] data[i] == lines[start + i] by {}
    match parse_full_matrix(data) {
        Ok(distance_matrix) => {
            let name: String = text_of(header.name.as_slice());
            assert forall|i: int| start <= i < start + dimension implies is_row(
                #[trigger] lines[i]@,
            ) by {
                assert(data[i - start] == lines[i]);
            }
            Ok(TspFile { name, dimension, distance_matrix })
        },
        Err(e) => {
            let ghost bad = choose|i: int| 0 <= i < data.len() && !is_row(#[trigger] data[i]@);
            assert(!is_row(lines[start + bad]@));
            Err(e)
        },
    }
}

} // verus!
