//! Text as bytes: lines, words and decimal numbers.

use vstd::prelude::*;
use vstd::string::StringSliceAdditionalSpecFns;

verus! {

/// A blank byte: a space, a tab, a line feed, a vertical tab, a form feed
/// or a carriage return.
pub open spec fn is_blank(b: u8) -> bool {
    b == 32 || 9 <= b <= 13
}

/// A decimal digit.
pub open spec fn is_digit(b: u8) -> bool {
    48 <= b <= 57
}

/// Where reading the first `k` bytes for words stands: the words that are
/// complete, and the bytes of the word that is being read.
pub open spec fn words_read(s: Seq<u8>, k: int) -> (Seq<Seq<u8>>, Seq<u8>)
    decreases k,
{
    if k <= 0 {
        (Seq::empty(), Seq::empty())
    } else {
        let (words, word) = words_read(s, k - 1);
        if !is_blank(s[k - 1]) {
            (words, word.push(s[k - 1]))
        } else if word.len() > 0 {
            (words.push(word), Seq::empty())
        } else {
            (words, word)
        }
    }
}

/// The words of a line: its longest stretches without a blank byte, in
/// their order.
pub open spec fn words_of(s: Seq<u8>) -> Seq<Seq<u8>> {
    let (words, word) = words_read(s, s.len() as int);
    if word.len() > 0 {
        words.push(word)
    } else {
        words
    }
}

/// Where reading the first `k` bytes for lines stands: the lines that are
/// complete, and the bytes of the line that is being read.
pub open spec fn lines_read(s: Seq<u8>, k: int) -> (Seq<Seq<u8>>, Seq<u8>)
    decreases k,
{
    if k <= 0 {
        (Seq::empty(), Seq::empty())
    } else {
        let (lines, line) = lines_read(s, k - 1);
        if s[k - 1] == 10 {
            (lines.push(line), Seq::empty())
        } else {
            (lines, line.push(s[k - 1]))
        }
    }
}

/// The lines of a text: what stands between its line feeds, and what
/// follows the last one unless that is nothing.
pub open spec fn lines_of(s: Seq<u8>) -> Seq<Seq<u8>> {
    let (lines, line) = lines_read(s, s.len() as int);
    if line.len() > 0 {
        lines.push(line)
    } else {
        lines
    }
}

/// The number that a row of digits stands for; 0 for none.
pub open spec fn digits_value(s: Seq<u8>) -> int
    decreases s.len(),
{
    if s.len() == 0 {
        0
    } else {
        digits_value(s.drop_last()) * 10 + (s.last() - 48)
    }
}

/// All bytes are digits, and there is at least one.
pub open spec fn is_digits(s: Seq<u8>) -> bool {
    s.len() > 0 && forall|i: int| 0 <= i < s.len() ==> is_digit(#[trigger] s[i])
}

/// The number that a word stands for: digits, with or without a `+` or a
/// `-` before them.
pub open spec fn number_of(word: Seq<u8>) -> Option<int> {
    if word.len() > 0 && word[0] == 45 {
        if is_digits(word.skip(1)) {
            Some(-digits_value(word.skip(1)))
        } else {
            None
        }
    } else if word.len() > 0 && word[0] == 43 {
        if is_digits(word.skip(1)) {
            Some(digits_value(word.skip(1)))
        } else {
            None
        }
    } else if is_digits(word) {
        Some(digits_value(word))
    } else {
        None
    }
}

/// The number that a word stands for, where it is one between `low` and
/// `high`.
pub open spec fn number_within(word: Seq<u8>, low: int, high: int) -> Option<int> {
    match number_of(word) {
        Some(v) => if low <= v <= high {
            Some(v)
        } else {
            None
        },
        None => None,
    }
}

/// Tells whether a byte is blank.
pub fn blank(b: u8) -> (r: bool)
    ensures
        r == is_blank(b),
{
    b == 32 || (9 <= b && b <= 13)
}

/// The words of a line.
pub fn split_words(line: &[u8]) -> (words: Vec<Vec<u8>>)
    ensures
        words.deep_view() == words_of(line@),
{
    let mut words: Vec<Vec<u8>> = Vec::new();
    let mut word: Vec<u8> = Vec::new();
    let mut k: usize = 0;
    while k < line.len()
        invariant
            k <= line.len(),
            (words.deep_view(), word@) == words_read(line@, k as int),
        decreases line.len() - k,
    {
        let b: u8 = line[k];
        let ghost done = words.deep_view();
        if !blank(b) {
            word.push(b);
        } else if word.len() > 0 {
            let ghost complete = word@;
            words.push(word);
            word = Vec::new();
            assert(words.deep_view() =~~= done.push(complete));
        }
        k += 1;
    }
    if word.len() > 0 {
        let ghost done = words.deep_view();
        let ghost complete = word@;
        words.push(word);
        assert(words.deep_view() =~~= done.push(complete));
    }
    words
}

/// The lines of a text.
pub fn split_lines(text: &[u8]) -> (lines: Vec<Vec<u8>>)
    ensures
        lines.deep_view() == lines_of(text@),
{
    let mut lines: Vec<Vec<u8>> = Vec::new();
    let mut line: Vec<u8> = Vec::new();
    let mut k: usize = 0;
    while k < text.len()
        invariant
            k <= text.len(),
            (lines.deep_view(), line@) == lines_read(text@, k as int),
        decreases text.len() - k,
    {
        let b: u8 = text[k];
        let ghost done = lines.deep_view();
        if b == 10 {
            let ghost complete = line@;
            lines.push(line);
            line = Vec::new();
            assert(lines.deep_view() =~~= done.push(complete));
        } else {
            line.push(b);
        }
        k += 1;
    }
    if line.len() > 0 {
        let ghost done = lines.deep_view();
        let ghost complete = line@;
        lines.push(line);
        assert(lines.deep_view() =~~= done.push(complete));
    }
    lines
}

/// The number of blank bytes that a line starts with.
pub open spec fn leading_blanks(s: Seq<u8>) -> nat
    decreases s.len(),
{
    if s.len() > 0 && is_blank(s[0]) {
        1 + leading_blanks(s.skip(1))
    } else {
        0
    }
}

/// The number of blank bytes that a line ends with.
pub open spec fn trailing_blanks(s: Seq<u8>) -> nat
    decreases s.len(),
{
    if s.len() > 0 && is_blank(s.last()) {
        1 + trailing_blanks(s.drop_last())
    } else {
        0
    }
}

/// A line without the blank bytes that it starts and ends with.
pub open spec fn trimmed(s: Seq<u8>) -> Seq<u8> {
    let rest = s.skip(leading_blanks(s) as int);
    rest.take(rest.len() - trailing_blanks(rest))
}

/// The bytes are those of the word.
pub open spec fn spells(bytes: Seq<u8>, word: &str) -> bool {
    bytes == word.spec_bytes()
}

/// Tells whether the bytes are those of the word.
pub fn is_word(bytes: &[u8], word: &str) -> (r: bool)
    ensures
        r == spells(bytes@, word),
{
    let other: &[u8] = word.as_bytes();
    if bytes.len() != other.len() {
        return false;
    }
    let mut k: usize = 0;
    while k < bytes.len()
        invariant
            k <= bytes.len(),
            bytes.len() == other.len(),
            other@ == word.spec_bytes(),
            forall|i: int| 0 <= i < k ==> bytes@[i] == other@[i],
        decreases bytes.len() - k,
    {
        if bytes[k] != other[k] {
            assert(bytes@[k as int] != other@[k as int]);
            return false;
        }
        k += 1;
    }
    assert(bytes@ =~= other@);
    true
}

/// A line without the blank bytes that it starts and ends with.
pub fn trim(line: &[u8]) -> (r: Vec<u8>)
    ensures
        r@ == trimmed(line@),
{
    let n: usize = line.len();
    let mut a: usize = 0;
    assert(line@.skip(0) =~= line@);
    while a < n && blank(line[a])
        invariant
            a <= n,
            n == line.len(),
            leading_blanks(line@) == a + leading_blanks(line@.skip(a as int)),
        decreases n - a,
    {
        assert(line@.skip(a as int).skip(1) =~= line@.skip(a + 1));
        a += 1;
    }
    let ghost rest = line@.skip(a as int);
    let mut b: usize = n;
    assert(rest.take(n - a) =~= rest);
    while b > a && blank(line[b - 1])
        invariant
            a <= b <= n,
            n == line.len(),
            rest == line@.skip(a as int),
            trailing_blanks(rest) == (n - b) + trailing_blanks(rest.take(b - a)),
        decreases b,
    {
        assert(rest.take(b - a).drop_last() =~= rest.take(b - 1 - a));
        b -= 1;
    }
    let mut r: Vec<u8> = Vec::new();
    let mut k: usize = a;
    while k < b
        invariant
            a <= k <= b <= n,
            n == line.len(),
            r@ == line@.subrange(a as int, k as int),
        decreases b - k,
    {
        r.push(line[k]);
        assert(r@ =~= line@.subrange(a as int, k + 1));
        k += 1;
    }
    assert(r@ =~= trimmed(line@));
    r
}

/// The value of a row of digits is not negative and no less than that of
/// any stretch that it starts with.
pub proof fn lemma_digits_value_grows(s: Seq<u8>, j: int)
    requires
        forall|i: int| 0 <= i < s.len() ==> is_digit(#[trigger] s[i]),
        0 <= j <= s.len(),
    ensures
        0 <= digits_value(s.take(j)) <= digits_value(s),
    decreases s.len(),
{
    if j == s.len() {
        assert(s.take(j) =~= s);
        if s.len() > 0 {
            lemma_digits_value_grows(s.drop_last(), j - 1);
            assert(s.drop_last().take(j - 1) =~= s.drop_last());
        }
    } else {
        lemma_digits_value_grows(s.drop_last(), j);
        assert(s.drop_last().take(j) =~= s.take(j));
        lemma_digits_value_grows(s.drop_last(), s.len() - 1);
        assert(s.drop_last().take(s.len() - 1) =~= s.drop_last());
    }
}

/// The number that a word stands for, where it is one between
/// `-u64::MAX` and `u64::MAX`.
pub fn parse_number(word: &[u8]) -> (r: Option<i128>)
    ensures
        match number_within(word@, -(u64::MAX as int), u64::MAX as int) {
            Some(v) => r == Some(v as i128),
            None => r is None,
        },
{
    let n: usize = word.len();
    if n == 0 {
        return None;
    }
    let negative: bool = word[0] == 45;
    let start: usize = if word[0] == 45 || word[0] == 43 { 1 } else { 0 };
    let ghost digits = word@.skip(start as int);
    assert(word@.skip(0) =~= word@);
    if start >= n {
        return None;
    }
    let mut acc: i128 = 0;
    let mut k: usize = start;
    assert(digits.take(0) =~= Seq::<u8>::empty());
    while k < n
        invariant
            start <= k <= n,
            start < n,
            n == word.len(),
            digits == word@.skip(start as int),
            start == 0 ==> digits == word@,
            start == 0 || start == 1,
            start == 1 <==> (word@[0] == 45 || word@[0] == 43),
            forall|i: int| 0 <= i < k - start ==> is_digit(#[trigger] digits[i]),
            acc == digits_value(digits.take(k - start)),
            0 <= acc <= u64::MAX,
        decreases n - k,
    {
        let b: u8 = word[k];
        assert(digits[k - start] == b);
        if b < 48 || b > 57 {
            assert(!is_digit(digits[k - start]));
            return None;
        }
        proof {
            let longer = digits.take(k - start + 1);
            assert(longer.drop_last() =~= digits.take(k - start));
            assert(longer.last() == b);
        }
        acc = acc * 10 + (b - 48) as i128;
        if acc > u64::MAX as i128 {
            proof {
                if is_digits(digits) {
                    lemma_digits_value_grows(digits, k - start + 1);
                }
            }
            return None;
        }
        k += 1;
    }
    assert(digits.take(n - start) =~= digits);
    if negative {
        Some(-acc)
    } else {
        Some(acc)
    }
}

/// The number that a word stands for, where it is one that an `i32`
/// holds.
pub fn parse_i32(word: &[u8]) -> (r: Option<i32>)
    ensures
        match number_within(word@, i32::MIN as int, i32::MAX as int) {
            Some(v) => r == Some(v as i32),
            None => r is None,
        },
{
    match parse_number(word) {
        Some(v) => if i32::MIN as i128 <= v && v <= i32::MAX as i128 {
            Some(v as i32)
        } else {
            None
        },
        None => None,
    }
}

/// The number that a word stands for, where it is one that a `u32`
/// holds.
pub fn parse_u32(word: &[u8]) -> (r: Option<u32>)
    ensures
        match number_within(word@, 0, u32::MAX as int) {
            Some(v) => r == Some(v as u32),
            None => r is None,
        },
{
    match parse_number(word) {
        Some(v) => if 0 <= v && v <= u32::MAX as i128 {
            Some(v as u32)
        } else {
            None
        },
        None => None,
    }
}

/// The number that a word stands for, where it is one that a `usize`
/// holds.
pub fn parse_usize(word: &[u8]) -> (r: Option<usize>)
    ensures
        match number_within(word@, 0, usize::MAX as int) {
            Some(v) => r == Some(v as usize),
            None => r is None,
        },
{
    match parse_number(word) {
        Some(v) => if 0 <= v && v <= usize::MAX as i128 {
            Some(v as usize)
        } else {
            None
        },
        None => None,
    }
}

} // verus!
