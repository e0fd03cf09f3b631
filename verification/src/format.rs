//! The line-oriented text format in which graphs are stored.
//!
//! A file starts with comment lines, each beginning with `#`, optionally
//! followed by one empty line. Then come a line with the node count, a line
//! with the edge count, one line per node (`id id2 latitude longitude ...`)
//! and one line per edge (`source target weight ...`). The fields of a line
//! are separated by single spaces.
use crate::graph::{
    lemma_offsets_group_sorted_edges, lemma_offsets_never_decrease, sorted_by_source,
    sources_below, Edge, Graph, Node,
};
use vstd::prelude::*;
use vstd::slice::slice_subrange;

verus! {

/// The line feed.
pub const NEWLINE: u8 = 10;

/// The carriage return.
pub const CARRIAGE_RETURN: u8 = 13;

/// The space.
pub const SPACE: u8 = 32;

/// The character `#`.
pub const HASH: u8 = 35;

/// The character `+`.
pub const PLUS: u8 = 43;

/// The character `-`.
pub const MINUS: u8 = 45;

/// The character `.`.
pub const POINT: u8 = 46;

/// The character `0`.
pub const DIGIT_0: u8 = 48;

/// The character `9`.
pub const DIGIT_9: u8 = 57;

/// The character `A`.
pub const UPPER_A: u8 = 65;

/// The character `Z`.
pub const UPPER_Z: u8 = 90;

/// The character `e`.
pub const LOWER_E: u8 = 101;

/// The distance from a capital letter to its small letter.
pub const TO_LOWER: u8 = 32;

/// The pieces of `s` between the occurrences of `sep`. A sequence with `k`
/// separators has `k + 1` pieces, some of which may be empty.
pub open spec fn split(s: Seq<u8>, sep: u8) -> Seq<Seq<u8>>
    decreases s.len(),
{
    if s.len() == 0 {
        seq![Seq::<u8>::empty()]
    } else {
        let before = split(s.drop_last(), sep);
        if s.last() == sep {
            before.push(Seq::<u8>::empty())
        } else {
            before.drop_last().push(before.last().push(s.last()))
        }
    }
}

/// `line` without one trailing carriage return.
pub open spec fn strip_cr(line: Seq<u8>) -> Seq<u8> {
    if line.len() > 0 && line.last() == CARRIAGE_RETURN {
        line.drop_last()
    } else {
        line
    }
}

/// The lines of a text. Every line feed ends a line; a carriage return just
/// before it is not part of the line. What follows the last line feed is a
/// line of its own unless it is empty.
pub open spec fn lines(text: Seq<u8>) -> Seq<Seq<u8>> {
    let pieces = split(text, NEWLINE);
    let ended = pieces.drop_last().map_values(|p: Seq<u8>| strip_cr(p));
    if pieces.last().len() == 0 {
        ended
    } else {
        ended.push(pieces.last())
    }
}

/// The fields of a line.
pub open spec fn fields(line: Seq<u8>) -> Seq<Seq<u8>> {
    split(line, SPACE)
}

/// `ranges` gives, piece by piece, where the pieces of `pieces` lie in `s`.
pub open spec fn locates(ranges: Seq<(usize, usize)>, s: Seq<u8>, pieces: Seq<Seq<u8>>) -> bool {
    &&& ranges.len() == pieces.len()
    &&& forall|k: int|
        0 <= k < ranges.len() ==> {
            &&& (#[trigger] ranges[k]).0 <= ranges[k].1 <= s.len()
            &&& s.subrange(ranges[k].0 as int, ranges[k].1 as int) == pieces[k]
        }
}

/// Where the pieces of `s` between the occurrences of `sep` lie.
pub fn split_ranges(s: &[u8], sep: u8) -> (ranges: Vec<(usize, usize)>)
    ensures
        locates(ranges@, s@, split(s@, sep)),
{
    let mut ranges: Vec<(usize, usize)> = Vec::new();
    let mut start: usize = 0;
    let mut i: usize = 0;
    let n: usize = s.len();
    assert(s@.take(0) =~= Seq::<u8>::empty());
    while i < n
        invariant
            n == s@.len(),
            start <= i <= n,
            split(s@.take(i as int), sep).len() == ranges@.len() + 1,
            split(s@.take(i as int), sep).last() == s@.subrange(start as int, i as int),
            forall|k: int|
                0 <= k < ranges@.len() ==> {
                    &&& (#[trigger] ranges@[k]).0 <= ranges@[k].1 <= n
                    &&& s@.subrange(ranges@[k].0 as int, ranges@[k].1 as int) == split(
                        s@.take(i as int),
                        sep,
                    )[k]
                },
        decreases n - i,
    {
        let ghost before = split(s@.take(i as int), sep);
        let ghost after = split(s@.take(i + 1), sep);
        assert(s@.take(i + 1).drop_last() =~= s@.take(i as int));
        assert(s@.take(i + 1).last() == s@[i as int]);
        if s[i] == sep {
            ranges.push((start, i));
            start = i + 1;
            assert(after == before.push(Seq::<u8>::empty()));
            assert(s@.subrange(start as int, i + 1) =~= Seq::<u8>::empty());
        } else {
            assert(after == before.drop_last().push(before.last().push(s@[i as int])));
            assert(s@.subrange(start as int, i + 1) =~= s@.subrange(start as int, i as int).push(
                s@[i as int],
            ));
        }
        i += 1;
    }
    assert(s@.take(n as int) =~= s@);
    ranges.push((start, n));
    ranges
}

/// Where the lines of `text` lie.
pub fn line_ranges(text: &[u8]) -> (ranges: Vec<(usize, usize)>)
    ensures
        locates(ranges@, text@, lines(text@)),
{
    let mut ranges = split_ranges(text, NEWLINE);
    let ghost pieces = split(text@, NEWLINE);
    let count: usize = ranges.len();
    let last = ranges[count - 1];
    let mut k: usize = 0;
    while k < count - 1
        invariant
            count == ranges@.len(),
            count == pieces.len(),
            count >= 1,
            k <= count - 1,
            last == ranges@[count - 1],
            forall|j: int|
                0 <= j < count ==> (#[trigger] ranges@[j]).0 <= ranges@[j].1 <= text@.len(),
            forall|j: int|
                k <= j < count ==> text@.subrange(
                    (#[trigger] ranges@[j]).0 as int,
                    ranges@[j].1 as int,
                ) == pieces[j],
            forall|j: int|
                0 <= j < k ==> text@.subrange(
                    (#[trigger] ranges@[j]).0 as int,
                    ranges@[j].1 as int,
                ) == strip_cr(pieces[j]),
        decreases count - 1 - k,
    {
        let r = ranges[k];
        if r.1 > r.0 && text[r.1 - 1] == CARRIAGE_RETURN {
            ranges.set(k, (r.0, r.1 - 1));
            assert(text@.subrange(r.0 as int, r.1 - 1) =~= text@.subrange(
                r.0 as int,
                r.1 as int,
            ).drop_last());
        }
        k += 1;
    }
    if last.0 == last.1 {
        ranges.pop();
    }
    proof {
        let ended = pieces.drop_last().map_values(|p: Seq<u8>| strip_cr(p));
        assert(pieces.last() == text@.subrange(last.0 as int, last.1 as int));
        assert forall|j: int| 0 <= j < ranges@.len() implies text@.subrange(
            (#[trigger] ranges@[j]).0 as int,
            ranges@[j].1 as int,
        ) == lines(text@)[j] by {
            if j < count - 1 {
                assert(ended[j] == strip_cr(pieces[j]));
            }
        }
    }
    ranges
}

/// A decimal digit.
pub open spec fn is_digit(b: u8) -> bool {
    DIGIT_0 <= b <= DIGIT_9
}

/// Every byte is a decimal digit.
pub open spec fn all_digits(s: Seq<u8>) -> bool {
    forall|i: int| 0 <= i < s.len() ==> is_digit(#[trigger] s[i])
}

/// The number that a sequence of decimal digits denotes.
pub open spec fn decimal_value(digits: Seq<u8>) -> nat
    decreases digits.len(),
{
    if digits.len() == 0 {
        0
    } else {
        decimal_value(digits.drop_last()) * 10 + (digits.last() - DIGIT_0) as nat
    }
}

/// The digits of an unsigned integer token: the token without a leading `+`.
pub open spec fn unsigned_digits(token: Seq<u8>) -> Seq<u8> {
    if token.len() > 0 && token[0] == PLUS {
        token.skip(1)
    } else {
        token
    }
}

/// The value of an unsigned integer token: one or more decimal digits, with
/// an optional `+` in front, that denote a number within `usize`.
pub open spec fn integer_value(token: Seq<u8>) -> Option<usize> {
    let digits = unsigned_digits(token);
    if digits.len() > 0 && all_digits(digits) && decimal_value(digits) <= usize::MAX {
        Some(decimal_value(digits) as usize)
    } else {
        None
    }
}

/// The first digits of a number denote no more than all of them.
proof fn lemma_decimal_value_prefix(digits: Seq<u8>, k: int)
    requires
        0 <= k <= digits.len(),
        all_digits(digits),
    ensures
        decimal_value(digits.take(k)) <= decimal_value(digits),
    decreases digits.len() - k,
{
    if k < digits.len() {
        lemma_decimal_value_prefix(digits, k + 1);
        assert(digits.take(k + 1).drop_last() =~= digits.take(k));
        assert(is_digit(digits[k]));
    } else {
        assert(digits.take(k) =~= digits);
    }
}

/// Reads an unsigned integer token.
pub fn parse_integer(token: &[u8]) -> (value: Option<usize>)
    ensures
        value == integer_value(token@),
{
    let n: usize = token.len();
    let first: usize = if n > 0 && token[0] == PLUS {
        1
    } else {
        0
    };
    let ghost digits = unsigned_digits(token@);
    assert(digits =~= token@.subrange(first as int, n as int));
    if first == n {
        return None;
    }
    let mut acc: usize = 0;
    let mut i: usize = first;
    assert(digits.take(0) =~= Seq::<u8>::empty());
    while i < n
        invariant
            n == token@.len(),
            first <= i <= n,
            digits == token@.subrange(first as int, n as int),
            digits == unsigned_digits(token@),
            all_digits(digits.take(i - first)),
            acc == decimal_value(digits.take(i - first)),
        decreases n - i,
    {
        let b: u8 = token[i];
        assert(b == digits[i - first]);
        if b < DIGIT_0 || b > DIGIT_9 {
            assert(!is_digit(digits[i - first]));
            return None;
        }
        let d: usize = (b - DIGIT_0) as usize;
        assert(digits.take(i + 1 - first).drop_last() =~= digits.take(i - first));
        assert(all_digits(digits.take(i + 1 - first))) by {
            assert forall|j: int| 0 <= j < i + 1 - first implies is_digit(
                #[trigger] digits.take(i + 1 - first)[j],
            ) by {
                if j < i - first {
                    assert(is_digit(digits.take(i - first)[j]));
                }
            }
        }
        if acc > (usize::MAX - d) / 10 {
            proof {
                assert(decimal_value(digits.take(i + 1 - first)) > usize::MAX);
                if all_digits(digits) {
                    lemma_decimal_value_prefix(digits, i + 1 - first);
                }
            }
            return None;
        }
        acc = acc * 10 + d;
        i += 1;
    }
    assert(digits.take(n - first) =~= digits);
    Some(acc)
}

/// The number of decimal digits in `s` from `start` on.
pub open spec fn digit_run(s: Seq<u8>, start: int) -> nat
    decreases s.len() - start,
{
    if 0 <= start < s.len() && is_digit(s[start]) {
        1 + digit_run(s, start + 1)
    } else {
        0
    }
}

/// An ASCII letter in lower case; any other byte unchanged.
pub open spec fn lower(b: u8) -> u8 {
    if UPPER_A <= b <= UPPER_Z {
        (b + TO_LOWER) as u8
    } else {
        b
    }
}

/// A plus or a minus.
pub open spec fn is_sign(b: u8) -> bool {
    b == PLUS || b == MINUS
}

/// `s` spells `word`, whatever the case of its letters.
pub open spec fn spells(s: Seq<u8>, word: Seq<u8>) -> bool {
    &&& s.len() == word.len()
    &&& forall|i: int| 0 <= i < s.len() ==> lower(#[trigger] s[i]) == word[i]
}

/// An exponent: `e` or `E`, an optional sign, and one or more digits up to
/// the end of `s`, all from `start` on.
pub open spec fn is_exponent(s: Seq<u8>, start: int) -> bool {
    let digits_start = if start + 1 < s.len() && is_sign(s[start + 1]) {
        start + 2
    } else {
        start + 1
    };
    &&& 0 <= start < s.len()
    &&& lower(s[start]) == LOWER_E
    &&& digits_start < s.len()
    &&& digits_start + digit_run(s, digits_start) == s.len()
}

/// A decimal number: digits with at most one point among them and at least
/// one digit in all, then an optional exponent.
pub open spec fn is_number(s: Seq<u8>) -> bool {
    let whole = digit_run(s, 0) as int;
    let has_point = whole < s.len() && s[whole] == POINT;
    let fraction_start = if has_point {
        whole + 1
    } else {
        whole
    };
    let fraction = if has_point {
        digit_run(s, fraction_start) as int
    } else {
        0
    };
    let mantissa_end = fraction_start + fraction;
    &&& whole + fraction >= 1
    &&& mantissa_end == s.len() || is_exponent(s, mantissa_end)
}

/// The word `inf`.
pub open spec fn word_inf() -> Seq<u8> {
    seq![105u8, 110u8, 102u8]
}

/// The word `infinity`.
pub open spec fn word_infinity() -> Seq<u8> {
    seq![105u8, 110u8, 102u8, 105u8, 110u8, 105u8, 116u8, 121u8]
}

/// The word `nan`.
pub open spec fn word_nan() -> Seq<u8> {
    seq![110u8, 97u8, 110u8]
}

/// A coordinate token is a floating-point literal: an optional sign, then
/// `inf`, `infinity` or `nan` in any case, or a decimal number.
pub open spec fn is_coordinate(token: Seq<u8>) -> bool {
    let body = if token.len() > 0 && is_sign(token[0]) {
        token.skip(1)
    } else {
        token
    };
    spells(body, word_inf()) || spells(body, word_infinity()) || spells(body, word_nan())
        || is_number(body)
}

/// An ASCII letter in lower case; any other byte unchanged.
fn lower_byte(b: u8) -> (l: u8)
    ensures
        l == lower(b),
{
    if b >= UPPER_A && b <= UPPER_Z {
        b + TO_LOWER
    } else {
        b
    }
}

/// Counts the decimal digits in `s` from `start` on.
fn count_digits(s: &[u8], start: usize) -> (count: usize)
    requires
        start <= s@.len(),
    ensures
        count == digit_run(s@, start as int),
        start + count <= s@.len(),
{
    let n: usize = s.len();
    let mut i: usize = start;
    while i < n && s[i] >= DIGIT_0 && s[i] <= DIGIT_9
        invariant
            n == s@.len(),
            start <= i <= n,
            digit_run(s@, start as int) == (i - start) + digit_run(s@, i as int),
        decreases n - i,
    {
        i += 1;
    }
    i - start
}

/// Decides whether `s` spells `word`, whatever the case of its letters.
fn spells_word(s: &[u8], word: &Vec<u8>) -> (b: bool)
    ensures
        b == spells(s@, word@),
{
    let w: usize = word.len();
    if s.len() != w {
        return false;
    }
    let mut i: usize = 0;
    while i < w
        invariant
            w == s@.len(),
            w == word@.len(),
            i <= w,
            forall|j: int| 0 <= j < i ==> lower(#[trigger] s@[j]) == word@[j],
        decreases w - i,
    {
        if lower_byte(s[i]) != word[i] {
            return false;
        }
        i += 1;
    }
    true
}

/// Decides whether `s` holds an exponent from `start` to its end.
fn check_exponent(s: &[u8], start: usize) -> (b: bool)
    requires
        start < s@.len(),
    ensures
        b == is_exponent(s@, start as int),
{
    let n: usize = s.len();
    if lower_byte(s[start]) != LOWER_E {
        return false;
    }
    let digits_start: usize = if start + 1 < n && (s[start + 1] == PLUS || s[start + 1] == MINUS) {
        start + 2
    } else {
        start + 1
    };
    if digits_start >= n {
        return false;
    }
    let run: usize = count_digits(s, digits_start);
    digits_start + run == n
}

/// Decides whether `s` is a decimal number.
fn check_number(s: &[u8]) -> (b: bool)
    ensures
        b == is_number(s@),
{
    let n: usize = s.len();
    let whole: usize = count_digits(s, 0);
    let has_point: bool = whole < n && s[whole] == POINT;
    let fraction_start: usize = if has_point {
        whole + 1
    } else {
        whole
    };
    let fraction: usize = if has_point {
        count_digits(s, fraction_start)
    } else {
        0
    };
    let mantissa_end: usize = fraction_start + fraction;
    if whole + fraction < 1 {
        return false;
    }
    mantissa_end == n || check_exponent(s, mantissa_end)
}

/// Decides whether a token is a coordinate.
pub fn check_coordinate(token: &[u8]) -> (b: bool)
    ensures
        b == is_coordinate(token@),
{
    let n: usize = token.len();
    let first: usize = if n > 0 && (token[0] == PLUS || token[0] == MINUS) {
        1
    } else {
        0
    };
    let body = slice_subrange(token, first, n);
    assert(body@ =~= if token@.len() > 0 && is_sign(token@[0]) {
        token@.skip(1)
    } else {
        token@
    });
    let inf: Vec<u8> = vec![105u8, 110u8, 102u8];
    let infinity: Vec<u8> = vec![105u8, 110u8, 102u8, 105u8, 110u8, 105u8, 116u8, 121u8];
    let nan: Vec<u8> = vec![110u8, 97u8, 110u8];
    spells_word(body, &inf) || spells_word(body, &infinity) || spells_word(body, &nan)
        || check_number(body)
}

/// Why a text is not a graph.
#[derive(Debug, Clone, Copy, PartialEq, Eq, Structural)]
pub enum ParseError {
    /// The text ends before all announced lines were read.
    UnexpectedEof,
    /// A line ends before all of its fields were read.
    UnexpectedEol,
    /// A count, a node id or a weight is not an unsigned integer.
    ParseInt,
    /// A latitude or a longitude is not a floating-point literal.
    ParseFloat,
}

/// A comment line begins with `#`.
pub open spec fn is_comment(line: Seq<u8>) -> bool {
    line.len() > 0 && line[0] == HASH
}

/// The index of the first line at or after `from` that is no comment.
pub open spec fn comments_end(ls: Seq<Seq<u8>>, from: int) -> int
    decreases ls.len() - from,
{
    if 0 <= from < ls.len() && is_comment(ls[from]) {
        comments_end(ls, from + 1)
    } else {
        from
    }
}

/// The index of the line that holds the node count: the first line after the
/// comments and after the empty line that may follow them.
pub open spec fn body_start(ls: Seq<Seq<u8>>) -> int {
    let c = comments_end(ls, 0);
    if c < ls.len() && ls[c].len() == 0 {
        c + 1
    } else {
        c
    }
}

/// What is wrong with a node line, if anything. The third and fourth field
/// are the latitude and the longitude; the fields are examined in order.
pub open spec fn node_line_error(line: Seq<u8>) -> Option<ParseError> {
    let f = fields(line);
    if f.len() < 3 {
        Some(ParseError::UnexpectedEol)
    } else if !is_coordinate(f[2]) {
        Some(ParseError::ParseFloat)
    } else if f.len() < 4 {
        Some(ParseError::UnexpectedEol)
    } else if !is_coordinate(f[3]) {
        Some(ParseError::ParseFloat)
    } else {
        None
    }
}

/// What is wrong with an edge line, if anything. The first three fields are
/// source, target and weight; the fields are examined in order.
pub open spec fn edge_line_error(line: Seq<u8>) -> Option<ParseError> {
    let f = fields(line);
    if integer_value(f[0]) is None {
        Some(ParseError::ParseInt)
    } else if f.len() < 2 {
        Some(ParseError::UnexpectedEol)
    } else if integer_value(f[1]) is None {
        Some(ParseError::ParseInt)
    } else if f.len() < 3 {
        Some(ParseError::UnexpectedEol)
    } else if integer_value(f[2]) is None {
        Some(ParseError::ParseInt)
    } else {
        None
    }
}

/// What is wrong with a line, read as an edge line or as a node line.
pub open spec fn line_error(line: Seq<u8>, is_edge: bool) -> Option<ParseError> {
    if is_edge {
        edge_line_error(line)
    } else {
        node_line_error(line)
    }
}

/// The first error met when `count` lines are read in order, starting with
/// line `first`. A line that does not exist is an unexpected end of the text.
pub open spec fn first_error(ls: Seq<Seq<u8>>, first: int, count: int, is_edge: bool) -> Option<
    ParseError,
>
    decreases count,
{
    if count <= 0 {
        None
    } else {
        match first_error(ls, first, count - 1, is_edge) {
            Some(e) => Some(e),
            None => if first + count - 1 >= ls.len() {
                Some(ParseError::UnexpectedEof)
            } else {
                line_error(ls[first + count - 1], is_edge)
            },
        }
    }
}

/// The edge that a faultless edge line declares.
pub open spec fn edge_of_line(line: Seq<u8>) -> Edge {
    let f = fields(line);
    Edge {
        src: integer_value(f[0]).unwrap(),
        tgt: integer_value(f[1]).unwrap(),
        dist: integer_value(f[2]).unwrap(),
    }
}

/// The first error met when `text` is read as a graph; `None` if it is one.
pub open spec fn parse_error(text: Seq<u8>) -> Option<ParseError> {
    let ls = lines(text);
    let b = body_start(ls);
    if ls.len() <= b {
        Some(ParseError::UnexpectedEof)
    } else if integer_value(ls[b]) is None {
        Some(ParseError::ParseInt)
    } else if ls.len() <= b + 1 {
        Some(ParseError::UnexpectedEof)
    } else if integer_value(ls[b + 1]) is None {
        Some(ParseError::ParseInt)
    } else {
        let n = integer_value(ls[b]).unwrap() as int;
        let m = integer_value(ls[b + 1]).unwrap() as int;
        match first_error(ls, b + 2, n, false) {
            Some(e) => Some(e),
            None => first_error(ls, b + 2 + n, m, true),
        }
    }
}

/// `graph` is the graph that the faultless text `text` declares: node `i`
/// comes from the `i`-th node line and carries `i` as its id, edge `j` comes
/// from the `j`-th edge line, and the offsets follow the edges.
pub open spec fn declares(text: Seq<u8>, graph: Graph) -> bool {
    let ls = lines(text);
    let b = body_start(ls);
    let n = integer_value(ls[b]).unwrap() as int;
    let m = integer_value(ls[b + 1]).unwrap() as int;
    &&& graph.num_nodes == n
    &&& graph.num_edges == m
    &&& graph.sizes_agree()
    &&& forall|i: int|
        0 <= i < n ==> {
            &&& (#[trigger] graph.nodes@[i]).id == i
            &&& graph.nodes@[i].lat@ == fields(ls[b + 2 + i])[2]
            &&& graph.nodes@[i].lon@ == fields(ls[b + 2 + i])[3]
        }
    &&& forall|j: int| 0 <= j < m ==> #[trigger] graph.edges@[j] == edge_of_line(ls[b + 2 + n + j])
    &&& graph.offsets_follow_edges()
}

/// In every graph that a text declares there is one offset more than there
/// are nodes, the last offset is the number of edges, and the offsets never
/// decrease.
pub proof fn lemma_parsed_offsets(text: Seq<u8>, graph: Graph)
    requires
        parse_error(text) is None,
        declares(text, graph),
    ensures
        graph.offsets@.len() == graph.num_nodes + 1,
        graph.offsets@[graph.num_nodes as int] == graph.num_edges,
        forall|u: int, v: int|
            0 <= u <= v <= graph.num_nodes ==> graph.offsets@[u] <= graph.offsets@[v],
{
    assert forall|u: int, v: int| 0 <= u <= v <= graph.num_nodes implies graph.offsets@[u]
        <= graph.offsets@[v] by {
        lemma_offsets_never_decrease(graph.edges@, graph.num_nodes as int, u, v);
    }
}

/// In a graph that a text declares, every edge between the offset of a node
/// and that of the next leaves that node, provided the edge lines come by
/// ascending source and leave existing nodes.
pub proof fn lemma_parsed_edges_grouped(text: Seq<u8>, graph: Graph, v: int, i: int)
    requires
        parse_error(text) is None,
        declares(text, graph),
        sorted_by_source(graph.edges@),
        sources_below(graph.edges@, graph.num_nodes as int),
        0 <= v < graph.num_nodes,
        graph.offsets@[v] <= i < graph.offsets@[v + 1],
    ensures
        0 <= i < graph.num_edges,
        graph.edges@[i].src == v,
{
    let n = graph.num_nodes as int;
    lemma_offsets_never_decrease(graph.edges@, n, 0, v);
    lemma_offsets_never_decrease(graph.edges@, n, v + 1, n);
    assert(graph.offsets@[v + 1] == crate::graph::offset_of(graph.edges@, n, v + 1));
    lemma_offsets_group_sorted_edges(graph.edges@, n, v, i);
}

/// An error, once met, stays the first error however many more lines are read.
proof fn lemma_first_error_stays(
    ls: Seq<Seq<u8>>,
    first: int,
    count: int,
    more: int,
    is_edge: bool,
)
    requires
        0 <= count <= more,
        first_error(ls, first, count, is_edge) is Some,
    ensures
        first_error(ls, first, more, is_edge) == first_error(ls, first, count, is_edge),
    decreases more - count,
{
    if count < more {
        lemma_first_error_stays(ls, first, count, more - 1, is_edge);
    }
}

/// A vector with the bytes of `s`.
fn copy_bytes(s: &[u8]) -> (v: Vec<u8>)
    ensures
        v@ == s@,
{
    let mut v: Vec<u8> = Vec::new();
    let mut i: usize = 0;
    while i < s.len()
        invariant
            i <= s@.len(),
            v@ == s@.take(i as int),
        decreases s@.len() - i,
    {
        v.push(s[i]);
        assert(s@.take(i + 1) =~= s@.take(i as int).push(s@[i as int]));
        i += 1;
    }
    assert(s@.take(s@.len() as int) =~= s@);
    v
}

/// Reads a node line and returns latitude and longitude as written.
pub fn parse_node_line(line: &[u8]) -> (r: Result<(Vec<u8>, Vec<u8>), ParseError>)
    ensures
        match r {
            Ok((lat, lon)) => {
                &&& node_line_error(line@) is None
                &&& lat@ == fields(line@)[2]
                &&& lon@ == fields(line@)[3]
            },
            Err(e) => node_line_error(line@) == Some(e),
        },
{
    let f = split_ranges(line, SPACE);
    if f.len() < 3 {
        return Err(ParseError::UnexpectedEol);
    }
    let lat = slice_subrange(line, f[2].0, f[2].1);
    if !check_coordinate(lat) {
        return Err(ParseError::ParseFloat);
    }
    if f.len() < 4 {
        return Err(ParseError::UnexpectedEol);
    }
    let lon = slice_subrange(line, f[3].0, f[3].1);
    if !check_coordinate(lon) {
        return Err(ParseError::ParseFloat);
    }
    Ok((copy_bytes(lat), copy_bytes(lon)))
}

/// Reads an edge line.
pub fn parse_edge_line(line: &[u8]) -> (r: Result<Edge, ParseError>)
    ensures
        match r {
            Ok(edge) => edge_line_error(line@) is None && edge == edge_of_line(line@),
            Err(e) => edge_line_error(line@) == Some(e),
        },
{
    let f = split_ranges(line, SPACE);
    let src = match parse_integer(slice_subrange(line, f[0].0, f[0].1)) {
        Some(value) => value,
        None => {
            return Err(ParseError::ParseInt);
        },
    };
    if f.len() < 2 {
        return Err(ParseError::UnexpectedEol);
    }
    let tgt = match parse_integer(slice_subrange(line, f[1].0, f[1].1)) {
        Some(value) => value,
        None => {
            return Err(ParseError::ParseInt);
        },
    };
    if f.len() < 3 {
        return Err(ParseError::UnexpectedEol);
    }
    let dist = match parse_integer(slice_subrange(line, f[2].0, f[2].1)) {
        Some(value) => value,
        None => {
            return Err(ParseError::ParseInt);
        },
    };
    Ok(Edge { src, tgt, dist })
}

impl Graph {
    /// Parse node and edge data from the text of a graph file into a directed
    /// graph. The edge lines are expected by ascending source; where they are
    /// not, the text is accepted all the same and the graph is not well-formed.
    pub fn parse_graph(text: &[u8]) -> (r: Result<Graph, ParseError>)
        ensures
            match r {
                Ok(graph) => parse_error(text@) is None && declares(text@, graph),
                Err(e) => parse_error(text@) == Some(e),
            },
    {
        let ranges = line_ranges(text);
        let ghost ls = lines(text@);
        let total: usize = ranges.len();
        let mut at: usize = 0;
        while at < total && ranges[at].1 > ranges[at].0 && text[ranges[at].0] == HASH
            invariant
                total == ranges@.len(),
                locates(ranges@, text@, ls),
                at <= total,
                comments_end(ls, 0) == comments_end(ls, at as int),
            decreases total - at,
        {
            assert(ls[at as int][0] == text@[ranges@[at as int].0 as int]);
            at += 1;
        }
        proof {
            if at < total {
                if ranges@[at as int].1 > ranges@[at as int].0 {
                    assert(ls[at as int][0] == text@[ranges@[at as int].0 as int]);
                }
            }
        }
        if at < total && ranges[at].1 == ranges[at].0 {
            at += 1;
        }
        assert(at == body_start(ls));
        if at >= total {
            return Err(ParseError::UnexpectedEof);
        }
        let num_nodes = match parse_integer(slice_subrange(text, ranges[at].0, ranges[at].1)) {
            Some(value) => value,
            None => {
                return Err(ParseError::ParseInt);
            },
        };
        at += 1;
        if at >= total {
            return Err(ParseError::UnexpectedEof);
        }
        let num_edges = match parse_integer(slice_subrange(text, ranges[at].0, ranges[at].1)) {
            Some(value) => value,
            None => {
                return Err(ParseError::ParseInt);
            },
        };
        at += 1;
        let ghost b = body_start(ls);
        let mut nodes: Vec<Node> = Vec::new();
        let mut i: usize = 0;
        while i < num_nodes
            invariant
                total == ranges@.len(),
                locates(ranges@, text@, ls),
                ls == lines(text@),
                b == body_start(ls),
                b + 1 < ls.len(),
                integer_value(ls[b]) == Some(num_nodes),
                integer_value(ls[b + 1]) == Some(num_edges),
                i <= num_nodes,
                at == b + 2 + i,
                at <= total,
                first_error(ls, b + 2, i as int, false) is None,
                nodes@.len() == i,
                forall|k: int|
                    0 <= k < i ==> {
                        &&& (#[trigger] nodes@[k]).id == k
                        &&& nodes@[k].lat@ == fields(ls[b + 2 + k])[2]
                        &&& nodes@[k].lon@ == fields(ls[b + 2 + k])[3]
                    },
            decreases num_nodes - i,
        {
            if at >= total {
                proof {
                    assert(first_error(ls, b + 2, i + 1, false) == Some(ParseError::UnexpectedEof));
                    lemma_first_error_stays(ls, b + 2, i + 1, num_nodes as int, false);
                }
                return Err(ParseError::UnexpectedEof);
            }
            match parse_node_line(slice_subrange(text, ranges[at].0, ranges[at].1)) {
                Ok((lat, lon)) => {
                    nodes.push(Node { id: i, lat, lon });
                },
                Err(e) => {
                    proof {
                        assert(first_error(ls, b + 2, i + 1, false) == Some(e));
                        lemma_first_error_stays(ls, b + 2, i + 1, num_nodes as int, false);
                    }
                    return Err(e);
                },
            }
            at += 1;
            i += 1;
        }
        let mut edges: Vec<Edge> = Vec::new();
        let mut j: usize = 0;
        while j < num_edges
            invariant
                total == ranges@.len(),
                locates(ranges@, text@, ls),
                ls == lines(text@),
                b == body_start(ls),
                b + 1 < ls.len(),
                integer_value(ls[b]) == Some(num_nodes),
                integer_value(ls[b + 1]) == Some(num_edges),
                first_error(ls, b + 2, num_nodes as int, false) is None,
                j <= num_edges,
                at == b + 2 + num_nodes + j,
                at <= total,
                first_error(ls, b + 2 + num_nodes, j as int, true) is None,
                edges@.len() == j,
                forall|k: int|
                    0 <= k < j ==> #[trigger] edges@[k] == edge_of_line(ls[b + 2 + num_nodes + k]),
            decreases num_edges - j,
        {
            if at >= total {
                proof {
                    assert(first_error(ls, b + 2 + num_nodes, j + 1, true) == Some(
                        ParseError::UnexpectedEof,
                    ));
                    lemma_first_error_stays(ls, b + 2 + num_nodes, j + 1, num_edges as int, true);
                }
                return Err(ParseError::UnexpectedEof);
            }
            match parse_edge_line(slice_subrange(text, ranges[at].0, ranges[at].1)) {
                Ok(edge) => {
                    edges.push(edge);
                },
                Err(e) => {
                    proof {
                        assert(first_error(ls, b + 2 + num_nodes, j + 1, true) == Some(e));
                        lemma_first_error_stays(
                            ls,
                            b + 2 + num_nodes,
                            j + 1,
                            num_edges as int,
                            true,
                        );
                    }
                    return Err(e);
                },
            }
            at += 1;
            j += 1;
        }
        let offsets = Graph::compute_offsets(&edges, num_nodes);
        Ok(Graph { nodes, edges, offsets, num_nodes, num_edges })
    }
}

} // verus!
