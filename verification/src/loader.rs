//! Reading a graph from its text form.
//!
//! The text is a sequence of lines, each ended by a line feed or by the end
//! of the text. A line is cut into tokens at white space. The first line that
//! holds a token gives the number of vertices: it is that number when the
//! line is a single token that is a number, and zero otherwise. Each line
//! after it that is exactly two numbers is an edge, from the first to the
//! second; every other line is passed over.

use crate::graph::{
    edges_in_range, lemma_no_edges_in_range, lemma_with_edge_in_range, no_edges, with_edge,
    DirectedGraph,
};
use vstd::prelude::*;
use vstd::slice::slice_subrange;

verus! {

/// White space: the blank, and the controls from tab to carriage return.
pub open spec fn is_space(b: u8) -> bool {
    b == 32 || (9 <= b && b <= 13)
}

/// A decimal digit.
pub open spec fn is_digit(b: u8) -> bool {
    48 <= b && b <= 57
}

/// Every byte of `bytes` is a decimal digit.
pub open spec fn all_digits(bytes: Seq<u8>) -> bool {
    forall|i: int| 0 <= i < bytes.len() ==> is_digit(#[trigger] bytes[i])
}

/// The number that a string of decimal digits denotes.
pub open spec fn digits_value(digits: Seq<u8>) -> nat
    decreases digits.len(),
{
    if digits.len() == 0 {
        0
    } else {
        digits_value(digits.drop_last()) * 10 + (digits.last() - 48) as nat
    }
}

/// A token without the plus sign that may lead it.
pub open spec fn unsigned_part(token: Seq<u8>) -> Seq<u8> {
    if token.len() > 0 && token[0] == 43 {
        token.skip(1)
    } else {
        token
    }
}

/// The number that a token denotes: one or more decimal digits, after an
/// optional plus sign, with a value that a `usize` can hold.
pub open spec fn token_index(token: Seq<u8>) -> Option<usize> {
    let digits = unsigned_part(token);
    if digits.len() > 0 && all_digits(digits) && digits_value(digits) <= usize::MAX {
        Some(digits_value(digits) as usize)
    } else {
        None
    }
}

/// Where the run that starts at `from` ends: the first position at or after
/// `from` whose byte is white space if `spaces` is false, or is not if
/// `spaces` is true; the length of the line where there is none.
pub open spec fn run_end(line: Seq<u8>, from: int, spaces: bool) -> int
    decreases line.len() - from,
{
    if 0 <= from < line.len() && is_space(line[from]) == spaces {
        run_end(line, from + 1, spaces)
    } else {
        from
    }
}

/// The tokens of `line` from position `from` on: the maximal runs of bytes
/// that are not white space, in order.
pub open spec fn tokens_from(line: Seq<u8>, from: int) -> Seq<Seq<u8>>
    decreases line.len() - from,
    via tokens_from_decreases
{
    let start = run_end(line, from, true);
    let end = run_end(line, start, false);
    if start < end {
        seq![line.subrange(start, end)] + tokens_from(line, end)
    } else {
        Seq::empty()
    }
}

#[via_fn]
proof fn tokens_from_decreases(line: Seq<u8>, from: int) {
    let start = run_end(line, from, true);
    lemma_run_end_bounds(line, from, true);
    lemma_run_end_bounds(line, start, false);
}

/// The tokens of `line`.
pub open spec fn tokens(line: Seq<u8>) -> Seq<Seq<u8>> {
    tokens_from(line, 0)
}

/// Where the line that starts at `from` ends: the position of the next line
/// feed, or the length of the text where none follows.
pub open spec fn line_end(text: Seq<u8>, from: int) -> int
    decreases text.len() - from,
{
    if 0 <= from < text.len() && text[from] != 10 {
        line_end(text, from + 1)
    } else {
        from
    }
}

/// The lines of `text` from position `from` on. A line feed ends a line and
/// belongs to none; the text after the last line feed is a line unless it is
/// empty.
pub open spec fn lines_from(text: Seq<u8>, from: int) -> Seq<Seq<u8>>
    decreases text.len() - from + 1,
    via lines_from_decreases
{
    if 0 <= from < text.len() {
        let end = line_end(text, from);
        seq![text.subrange(from, end)] + lines_from(text, end + 1)
    } else {
        Seq::empty()
    }
}

#[via_fn]
proof fn lines_from_decreases(text: Seq<u8>, from: int) {
    lemma_line_end_bounds(text, from);
}

/// The lines of `text`.
pub open spec fn lines(text: Seq<u8>) -> Seq<Seq<u8>> {
    lines_from(text, 0)
}

/// A line without a token.
pub open spec fn is_blank(line: Seq<u8>) -> bool {
    tokens(line).len() == 0
}

/// The index of the first line that holds a token; the number of lines
/// where every line is blank.
pub open spec fn header_index(lines: Seq<Seq<u8>>) -> int
    decreases lines.len(),
{
    if lines.len() == 0 || !is_blank(lines[0]) {
        0
    } else {
        1 + header_index(lines.skip(1))
    }
}

/// The vertex count that a header line gives: its number where the line is
/// one token that denotes one, and zero otherwise.
pub open spec fn header_count(line: Seq<u8>) -> usize {
    let found = tokens(line);
    if found.len() == 1 {
        match token_index(found[0]) {
            Some(count) => count,
            None => 0,
        }
    } else {
        0
    }
}

/// The edge that a line gives: its two numbers where the line is exactly two
/// tokens and each denotes a number.
pub open spec fn line_edge(line: Seq<u8>) -> Option<(usize, usize)> {
    let found = tokens(line);
    if found.len() == 2 {
        match (token_index(found[0]), token_index(found[1])) {
            (Some(from), Some(to)) => Some((from, to)),
            _ => None,
        }
    } else {
        None
    }
}

/// The adjacency of a graph of `count` vertices after the edges of `lines`
/// were added in order.
pub open spec fn with_lines(count: usize, lines: Seq<Seq<u8>>) -> Map<usize, Seq<usize>>
    decreases lines.len(),
{
    if lines.len() == 0 {
        no_edges(count)
    } else {
        let before = with_lines(count, lines.drop_last());
        match line_edge(lines.last()) {
            Some((from, to)) => with_edge(before, count, from, to),
            None => before,
        }
    }
}

/// The number of vertices that `text` declares.
pub open spec fn text_count(text: Seq<u8>) -> usize {
    let all = lines(text);
    let header = header_index(all);
    if header < all.len() {
        header_count(all[header])
    } else {
        0
    }
}

/// The adjacency that `text` describes.
pub open spec fn text_links(text: Seq<u8>) -> Map<usize, Seq<usize>> {
    let all = lines(text);
    let header = header_index(all);
    if header < all.len() {
        with_lines(text_count(text), all.skip(header + 1))
    } else {
        no_edges(0)
    }
}

/// The number of vertices that a source declares; none where it could not
/// be read.
pub open spec fn source_count(source: Option<&[u8]>) -> usize {
    match source {
        Some(text) => text_count(text@),
        None => 0,
    }
}

/// The adjacency that a source describes; that of the graph without
/// vertices where it could not be read.
pub open spec fn source_links(source: Option<&[u8]>) -> Map<usize, Seq<usize>> {
    match source {
        Some(text) => text_links(text@),
        None => no_edges(0),
    }
}

/// A run ends at or after its start and within the line.
pub proof fn lemma_run_end_bounds(line: Seq<u8>, from: int, spaces: bool)
    ensures
        from <= run_end(line, from, spaces),
        from <= line.len() ==> run_end(line, from, spaces) <= line.len(),
        0 <= from < line.len() && is_space(line[from]) == spaces ==> from < run_end(
            line,
            from,
            spaces,
        ),
    decreases line.len() - from,
{
    if 0 <= from < line.len() && is_space(line[from]) == spaces {
        lemma_run_end_bounds(line, from + 1, spaces);
    }
}

/// A line ends at or after its start and within the text.
pub proof fn lemma_line_end_bounds(text: Seq<u8>, from: int)
    ensures
        from <= line_end(text, from),
        from <= text.len() ==> line_end(text, from) <= text.len(),
    decreases text.len() - from,
{
    if 0 <= from < text.len() && text[from] != 10 {
        lemma_line_end_bounds(text, from + 1);
    }
}

/// The header is the line at `at` when every line before it is blank and it
/// is not, or when `at` is the number of lines.
proof fn lemma_header_found(lines: Seq<Seq<u8>>, at: int)
    requires
        0 <= at <= lines.len(),
        forall|i: int| 0 <= i < at ==> is_blank(#[trigger] lines[i]),
        at < lines.len() ==> !is_blank(lines[at]),
    ensures
        header_index(lines) == at,
    decreases at,
{
    if at > 0 {
        let rest = lines.skip(1);
        assert forall|i: int| 0 <= i < at - 1 implies is_blank(#[trigger] rest[i]) by {
            assert(rest[i] == lines[i + 1]);
        }
        lemma_header_found(rest, at - 1);
    }
}

/// A leading part of a string of digits denotes no more than the whole.
proof fn lemma_value_grows(digits: Seq<u8>, upto: int)
    requires
        all_digits(digits),
        0 <= upto <= digits.len(),
    ensures
        digits_value(digits.take(upto)) <= digits_value(digits),
    decreases digits.len() - upto,
{
    if upto < digits.len() {
        lemma_value_grows(digits, upto + 1);
        assert(digits.take(upto + 1).drop_last() =~= digits.take(upto));
    } else {
        assert(digits.take(upto) =~= digits);
    }
}

/// Whatever the lines hold, every edge that they add runs between two of
/// the `count` vertices.
pub proof fn lemma_with_lines_in_range(count: usize, lines: Seq<Seq<u8>>)
    ensures
        edges_in_range(with_lines(count, lines), count),
    decreases lines.len(),
{
    if lines.len() == 0 {
        lemma_no_edges_in_range(count);
    } else {
        lemma_with_lines_in_range(count, lines.drop_last());
        match line_edge(lines.last()) {
            Some((from, to)) => {
                lemma_with_edge_in_range(with_lines(count, lines.drop_last()), count, from, to);
            },
            None => {},
        }
    }
}

/// Whatever the text holds, every edge of the graph that it describes runs
/// between two of the vertices that it declares.
pub proof fn lemma_text_links_in_range(text: Seq<u8>)
    ensures
        edges_in_range(text_links(text), text_count(text)),
{
    let all = lines(text);
    let header = header_index(all);
    if header < all.len() {
        lemma_with_lines_in_range(text_count(text), all.skip(header + 1));
    } else {
        lemma_no_edges_in_range(0);
    }
}

/// The empty text describes the graph without vertices.
pub proof fn lemma_empty_text()
    ensures
        text_count(Seq::<u8>::empty()) == 0,
        text_links(Seq::<u8>::empty()) == no_edges(0),
{
    assert(lines(Seq::<u8>::empty()).len() == 0);
}

fn is_space_byte(b: u8) -> (space: bool)
    ensures
        space == is_space(b),
{
    b == 32 || (9 <= b && b <= 13)
}

/// The number that `token` denotes, if it denotes one.
pub fn parse_index(token: &[u8]) -> (index: Option<usize>)
    ensures
        index == token_index(token@),
{
    let len = token.len();
    let first: usize = if len > 0 && token[0] == 43 {
        1
    } else {
        0
    };
    let ghost digits = unsigned_part(token@);
    assert(digits =~= token@.skip(first as int));
    if first == len {
        return None;
    }
    let mut value: usize = 0;
    let mut at: usize = first;
    while at < len
        invariant
            first <= at <= len,
            len == token@.len(),
            digits == token@.skip(first as int),
            digits == unsigned_part(token@),
            all_digits(digits.take(at - first)),
            value == digits_value(digits.take(at - first)),
        decreases len - at,
    {
        let byte = token[at];
        let ghost seen = digits.take(at - first + 1);
        assert(seen.drop_last() =~= digits.take(at - first));
        assert(seen.last() == byte);
        assert(digits[at - first] == byte);
        if byte < 48 || byte > 57 {
            assert(!is_digit(digits[at - first]));
            assert(!all_digits(digits));
            return None;
        }
        assert(all_digits(seen));
        assert(digits_value(seen) == value * 10 + (byte - 48));
        proof {
            if all_digits(digits) {
                lemma_value_grows(digits, at - first + 1);
            }
        }
        let digit: usize = (byte - 48) as usize;
        let scaled = match value.checked_mul(10) {
            Some(scaled) => scaled,
            None => {
                return None;
            },
        };
        value = match scaled.checked_add(digit) {
            Some(sum) => sum,
            None => {
                return None;
            },
        };
        at = at + 1;
    }
    assert(digits.take(at - first) =~= digits);
    Some(value)
}

/// The end of the run that starts at `from`.
fn skip_run(line: &[u8], from: usize, spaces: bool) -> (end: usize)
    requires
        from <= line@.len(),
    ensures
        end == run_end(line@, from as int, spaces),
        from <= end <= line@.len(),
        end < line@.len() ==> is_space(line@[end as int]) != spaces,
{
    let mut at: usize = from;
    while at < line.len() && is_space_byte(line[at]) == spaces
        invariant
            from <= at <= line@.len(),
            run_end(line@, from as int, spaces) == run_end(line@, at as int, spaces),
        decreases line@.len() - at,
    {
        at = at + 1;
    }
    at
}

/// The pieces of `line` that `spans` marks, each by its first position and
/// the position after its last.
pub open spec fn pieces(line: Seq<u8>, spans: Seq<(usize, usize)>) -> Seq<Seq<u8>> {
    Seq::new(spans.len(), |i: int| line.subrange(spans[i].0 as int, spans[i].1 as int))
}

/// The tokens of `line`, each by its first position and the position after
/// its last.
pub fn token_spans(line: &[u8]) -> (spans: Vec<(usize, usize)>)
    ensures
        pieces(line@, spans@) == tokens(line@),
        forall|i: int|
            0 <= i < spans@.len() ==> (#[trigger] spans@[i]).0 <= spans@[i].1 <= line@.len(),
{
    let mut spans: Vec<(usize, usize)> = Vec::new();
    let mut at: usize = 0;
    assert(pieces(line@, spans@) + tokens_from(line@, 0) =~= tokens(line@));
    while at < line.len()
        invariant
            at <= line@.len(),
            pieces(line@, spans@) + tokens_from(line@, at as int) == tokens(line@),
            forall|i: int|
                0 <= i < spans@.len() ==> (#[trigger] spans@[i]).0 <= spans@[i].1 <= line@.len(),
        decreases line@.len() - at,
    {
        let start = skip_run(line, at, true);
        let end = skip_run(line, start, false);
        proof {
            lemma_run_end_bounds(line@, start as int, false);
            lemma_run_end_bounds(line@, at as int, true);
        }
        if start < end {
            let ghost before = spans@;
            spans.push((start, end));
            assert(pieces(line@, spans@) =~= pieces(line@, before).push(
                line@.subrange(start as int, end as int),
            ));
            assert(pieces(line@, spans@) + tokens_from(line@, end as int) =~= pieces(line@, before)
                + tokens_from(line@, at as int));
        } else {
            // Only white space was left.
            assert(start == line@.len());
        }
        at = end;
    }
    assert(tokens_from(line@, at as int) =~= Seq::<Seq<u8>>::empty());
    assert(pieces(line@, spans@) =~= tokens(line@));
    spans
}

/// The vertex count that `line` gives as a header; `None` for a blank line,
/// which is no header.
pub fn read_header(line: &[u8]) -> (count: Option<usize>)
    ensures
        count is None <==> is_blank(line@),
        count is Some ==> count.unwrap() == header_count(line@),
{
    let spans = token_spans(line);
    if spans.len() == 0 {
        None
    } else if spans.len() == 1 {
        let (start, end) = spans[0];
        assert(pieces(line@, spans@)[0] == line@.subrange(start as int, end as int));
        match parse_index(slice_subrange(line, start, end)) {
            Some(count) => Some(count),
            None => Some(0),
        }
    } else {
        Some(0)
    }
}

/// The edge that `line` gives, if it gives one.
pub fn read_edge(line: &[u8]) -> (edge: Option<(usize, usize)>)
    ensures
        edge == line_edge(line@),
{
    let spans = token_spans(line);
    if spans.len() != 2 {
        return None;
    }
    let (from_start, from_end) = spans[0];
    let (to_start, to_end) = spans[1];
    assert(pieces(line@, spans@)[0] == line@.subrange(from_start as int, from_end as int));
    assert(pieces(line@, spans@)[1] == line@.subrange(to_start as int, to_end as int));
    let from = parse_index(slice_subrange(line, from_start, from_end));
    let to = parse_index(slice_subrange(line, to_start, to_end));
    match (from, to) {
        (Some(from), Some(to)) => Some((from, to)),
        _ => None,
    }
}

/// The end of the line that starts at `from`.
fn find_line_end(text: &[u8], from: usize) -> (end: usize)
    requires
        from <= text@.len(),
    ensures
        end == line_end(text@, from as int),
        from <= end <= text@.len(),
{
    let mut at: usize = from;
    while at < text.len() && text[at] != 10
        invariant
            from <= at <= text@.len(),
            line_end(text@, from as int) == line_end(text@, at as int),
        decreases text@.len() - at,
    {
        at = at + 1;
    }
    at
}

impl DirectedGraph {
    /// The graph that a source describes: that of its text where the source
    /// could be read, and the graph without vertices where it could not.
    pub fn new_graph(source: Option<&[u8]>) -> (graph: DirectedGraph)
        ensures
            graph.vertex_count() == source_count(source),
            graph@ == source_links(source),
            edges_in_range(graph@, graph.vertex_count()),
    {
        match source {
            Some(text) => DirectedGraph::from_text(text),
            None => DirectedGraph::new(0),
        }
    }

    /// The graph that `text` describes. Text without a header, the empty
    /// text among it, gives the graph without vertices.
    pub fn from_text(text: &[u8]) -> (graph: DirectedGraph)
        ensures
            graph.vertex_count() == text_count(text@),
            graph@ == text_links(text@),
            edges_in_range(graph@, graph.vertex_count()),
    {
        let len = text.len();
        let ghost all = lines(text@);
        let ghost mut done: int = 0;
        let mut at: usize = 0;
        let mut header: Option<usize> = None;
        assert(all.skip(0) =~= all);
        while at < len && header.is_none()
            invariant
                len == text@.len(),
                all == lines(text@),
                at <= len,
                0 <= done <= all.len(),
                lines_from(text@, at as int) == all.skip(done),
                forall|i: int|
                    0 <= i < done - (if header is Some { 1int } else { 0int }) ==> is_blank(#[trigger] all[i]),
                header is Some ==> done >= 1 && !is_blank(all[done - 1]) && header.unwrap()
                    == header_count(all[done - 1]),
            decreases len - at,
        {
            let end = find_line_end(text, at);
            let line = slice_subrange(text, at, end);
            proof {
                let rest = lines_from(text@, end + 1);
                assert(all.skip(done) == seq![line@] + rest);
                assert(all.skip(done)[0] == line@);
                assert(rest =~= all.skip(done).skip(1));
                assert(all.skip(done).skip(1) =~= all.skip(done + 1));
            }
            header = read_header(line);
            at = if end < len {
                end + 1
            } else {
                len
            };
            proof {
                done = done + 1;
            }
        }
        let count = match header {
            Some(count) => count,
            None => 0,
        };
        let mut graph = DirectedGraph::new(count);
        let ghost first = done;
        proof {
            if header is Some {
                lemma_header_found(all, done - 1);
            } else {
                assert(all.skip(done).len() == 0);
                lemma_header_found(all, done);
            }
            assert(all.subrange(first, done) =~= Seq::<Seq<u8>>::empty());
        }
        while at < len
            invariant
                len == text@.len(),
                all == lines(text@),
                at <= len,
                0 <= first <= done <= all.len(),
                lines_from(text@, at as int) == all.skip(done),
                graph.vertex_count() == count,
                graph@ == with_lines(count, all.subrange(first, done)),
            decreases len - at,
        {
            let end = find_line_end(text, at);
            let line = slice_subrange(text, at, end);
            proof {
                let rest = lines_from(text@, end + 1);
                assert(all.skip(done) == seq![line@] + rest);
                assert(all.skip(done)[0] == line@);
                assert(rest =~= all.skip(done).skip(1));
                assert(all.skip(done).skip(1) =~= all.skip(done + 1));
                assert(all.subrange(first, done + 1).drop_last() =~= all.subrange(first, done));
                assert(all.subrange(first, done + 1).last() == line@);
            }
            match read_edge(line) {
                Some((from, to)) => {
                    graph.add_edge(from, to);
                },
                None => {},
            }
            at = if end < len {
                end + 1
            } else {
                len
            };
            proof {
                done = done + 1;
            }
        }
        proof {
            assert(all.skip(done).len() == 0);
            assert(all.subrange(first, done) =~= all.skip(first));
            lemma_text_links_in_range(text@);
        }
        graph
    }
}

} // verus!
