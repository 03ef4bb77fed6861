//! Edge lists: reading them from text, and renumbering their vertices from 0 on.

use crate::graph::simple_graph::{is_end, is_joined, joins, touches};
use crate::graph::undirected::{
    adjacent, below, has_isolated, lemma_below, rejection_at, weighable, UndirectedGraph,
};
use std::collections::HashMap;
use vstd::prelude::*;

verus! {

broadcast use vstd::std_specs::hash::group_hash_axioms;

/// The numbering with `x` numbered: a vertex met for the first time takes the next
/// free number, which is the number of vertices met before it.
pub open spec fn with_vertex(ids: Map<usize, usize>, x: usize) -> Map<usize, usize> {
    if ids.contains_key(x) {
        ids
    } else {
        ids.insert(x, ids.dom().len() as usize)
    }
}

/// The numbering of the vertices after the first `count` edges: the vertices take the
/// numbers 0, 1, 2 and so on in the order in which the edges name them, the first end
/// of an edge before the second. Loops name no vertex.
pub open spec fn numbering(edges: Seq<(usize, usize)>, count: nat) -> Map<usize, usize>
    decreases count,
{
    if count == 0 {
        Map::empty()
    } else {
        let earlier = numbering(edges, (count - 1) as nat);
        let edge = edges[count - 1];
        if edge.0 == edge.1 {
            earlier
        } else {
            with_vertex(with_vertex(earlier, edge.0), edge.1)
        }
    }
}

/// The first `count` edges without the loops, in their order, with every vertex
/// replaced by its number.
pub open spec fn normalized(edges: Seq<(usize, usize)>, count: nat) -> Seq<(usize, usize)>
    decreases count,
{
    if count == 0 {
        Seq::empty()
    } else {
        let earlier = normalized(edges, (count - 1) as nat);
        let edge = edges[count - 1];
        if edge.0 == edge.1 {
            earlier
        } else {
            let ids = numbering(edges, count);
            earlier.push((ids[edge.0], ids[edge.1]))
        }
    }
}

/// A blank of the edge list format: a space, or one of the control characters from
/// the tabulator to the carriage return.
pub open spec fn is_space(byte: u8) -> bool {
    byte == 32 || (9 <= byte && byte <= 13)
}

/// A decimal digit.
pub open spec fn is_digit(byte: u8) -> bool {
    48 <= byte && byte <= 57
}

/// The number of bytes from `from` on that stand before the next line feed.
pub open spec fn line_length(text: Seq<u8>, from: int) -> nat
    decreases text.len() - from,
{
    if from < 0 || from >= text.len() || text[from] == 10 {
        0
    } else {
        1 + line_length(text, from + 1)
    }
}

/// The place of the first line feed from `from` on; the length of the text where there
/// is none.
pub open spec fn line_end(text: Seq<u8>, from: int) -> int {
    from + line_length(text, from)
}

/// The place of the first byte from `from` on that is no blank.
pub open spec fn spaces_end(line: Seq<u8>, from: int) -> int
    decreases line.len() - from,
{
    if from < 0 || from >= line.len() || !is_space(line[from]) {
        from
    } else {
        spaces_end(line, from + 1)
    }
}

/// The place of the first blank from `from` on.
pub open spec fn token_end(line: Seq<u8>, from: int) -> int
    decreases line.len() - from,
{
    if from < 0 || from >= line.len() || is_space(line[from]) {
        from
    } else {
        token_end(line, from + 1)
    }
}

/// Every byte is a decimal digit.
pub open spec fn all_digits(digits: Seq<u8>) -> bool {
    forall|i: int| 0 <= i < digits.len() ==> is_digit(#[trigger] digits[i])
}

/// The number that decimal digits write.
pub open spec fn digits_value(digits: Seq<u8>) -> nat
    decreases digits.len(),
{
    if digits.len() == 0 {
        0
    } else {
        digits_value(digits.drop_last()) * 10 + (digits.last() - 48) as nat
    }
}

/// The digits of a token: the token without a leading plus sign.
pub open spec fn unsigned_part(token: Seq<u8>) -> Seq<u8> {
    if token.len() > 0 && token[0] == 43 {
        token.drop_first()
    } else {
        token
    }
}

/// The number that a token writes, if it writes one that is no greater than `limit`: a
/// plus sign or none, then one or more decimal digits.
pub open spec fn number(token: Seq<u8>, limit: nat) -> Option<nat> {
    let digits = unsigned_part(token);
    if digits.len() > 0 && all_digits(digits) && digits_value(digits) <= limit {
        Some(digits_value(digits))
    } else {
        None
    }
}

/// The places where the first two tokens of a line begin and end, and where the text
/// after them begins.
pub open spec fn token_places(line: Seq<u8>) -> (int, int, int, int, int) {
    let a = spaces_end(line, 0);
    let b = token_end(line, a);
    let c = spaces_end(line, b);
    let d = token_end(line, c);
    let e = spaces_end(line, d);
    (a, b, c, d, e)
}

/// The edge that a line of a lenient edge list gives: its first two tokens, if both are
/// numbers within `usize`. Any other line gives no edge.
pub open spec fn line_edge(line: Seq<u8>) -> Option<(usize, usize)> {
    let (a, b, c, d, e) = token_places(line);
    let first = number(line.subrange(a, b), usize::MAX as nat);
    let second = number(line.subrange(c, d), usize::MAX as nat);
    if first.is_some() && second.is_some() {
        Some((first.unwrap() as usize, second.unwrap() as usize))
    } else {
        None
    }
}

/// The edges that the lines of a lenient edge list give, from the line that begins at
/// `start` on.
pub open spec fn edges_from(text: Seq<u8>, start: int) -> Seq<(usize, usize)>
    decreases text.len() - start,
{
    if start < 0 || start >= text.len() {
        Seq::empty()
    } else {
        let end = line_end(text, start);
        let rest = if end < text.len() {
            edges_from(text, end + 1)
        } else {
            Seq::empty()
        };
        match line_edge(text.subrange(start, end)) {
            Some(edge) => seq![edge] + rest,
            None => rest,
        }
    }
}

/// What is wrong with a line of a strict edge list.
#[derive(Debug, Clone, Copy, PartialEq, Eq, Structural)]
pub enum LineFault {
    /// The line does not hold exactly two tokens.
    Format,
    /// One of the two tokens is no number within 32 bits.
    Vertex,
}

/// What a line of a strict edge list gives: nothing for a blank line and for a line
/// whose first token begins with `#`; an edge for a line of exactly two tokens that are
/// numbers within 32 bits; a fault for any other line.
pub open spec fn strict_line(line: Seq<u8>) -> Result<Option<(usize, usize)>, LineFault> {
    let (a, b, c, d, e) = token_places(line);
    let first = number(line.subrange(a, b), u32::MAX as nat);
    let second = number(line.subrange(c, d), u32::MAX as nat);
    if a >= line.len() || line[a] == 35 {
        Ok(None)
    } else if c >= line.len() || e < line.len() {
        Err(LineFault::Format)
    } else if first.is_some() && second.is_some() {
        Ok(Some((first.unwrap() as usize, second.unwrap() as usize)))
    } else {
        Err(LineFault::Vertex)
    }
}

/// Why no graph can be built from an edge list.
#[derive(Debug, Clone, Copy, PartialEq, Eq, Structural)]
pub enum BuildError {
    /// The line with this number, counted from 0, does not hold exactly two tokens.
    InvalidFormat { line: usize },
    /// The line with this number, counted from 0, holds a token that is no number
    /// within 32 bits.
    InvalidVertex { line: usize },
    /// An edge is a loop.
    SelfLoopNotAllowed,
    /// An edge joins two vertices that an earlier edge joins.
    EdgeAlreadyExists,
    /// The edges name more vertices than a graph can have.
    TooManyVertices,
}

/// The error for a faulty line.
pub open spec fn line_error(fault: LineFault, line: usize) -> BuildError {
    match fault {
        LineFault::Format => BuildError::InvalidFormat { line },
        LineFault::Vertex => BuildError::InvalidVertex { line },
    }
}

/// The edges of a strict edge list from the line that begins at `start` on, which has
/// the number `index`; the error of the first faulty line where there is one.
pub open spec fn strict_edges_from(text: Seq<u8>, start: int, index: nat) -> Result<
    Seq<(usize, usize)>,
    BuildError,
>
    decreases text.len() - start,
{
    if start < 0 || start >= text.len() {
        Ok(Seq::empty())
    } else {
        let end = line_end(text, start);
        let later = if end < text.len() {
            strict_edges_from(text, end + 1, index + 1)
        } else {
            Ok(Seq::empty())
        };
        match strict_line(text.subrange(start, end)) {
            Err(fault) => Err(line_error(fault, index as usize)),
            Ok(found) => match later {
                Err(e) => Err(e),
                Ok(rest) => Ok(
                    match found {
                        Some(edge) => seq![edge] + rest,
                        None => rest,
                    },
                ),
            },
        }
    }
}

/// A scan for the end of a line ends within the text, at a line feed or at the end,
/// and passes no line feed.
pub proof fn lemma_line_end(text: Seq<u8>, from: int)
    requires
        0 <= from <= text.len(),
    ensures
        from <= line_end(text, from) <= text.len(),
        line_end(text, from) < text.len() ==> text[line_end(text, from)] == 10,
        forall|i: int| from <= i < line_end(text, from) ==> #[trigger] text[i] != 10,
    decreases text.len() - from,
{
    if from < text.len() && text[from] != 10 {
        lemma_line_end(text, from + 1);
        assert forall|i: int| from <= i < line_end(text, from) implies #[trigger] text[i]
            != 10 by {
            if i > from {
                assert(text[i] != 10);
            }
        }
    }
}

/// More digits do not write a smaller number.
pub proof fn lemma_digits_grow(digits: Seq<u8>, count: int)
    requires
        all_digits(digits),
        0 <= count <= digits.len(),
    ensures
        digits_value(digits.take(count)) <= digits_value(digits),
    decreases digits.len() - count,
{
    if count < digits.len() {
        lemma_digits_grow(digits, count + 1);
        assert(digits.take(count + 1).drop_last() =~= digits.take(count));
        assert(is_digit(digits[count]));
    } else {
        assert(digits.take(count) =~= digits);
    }
}

/// Finds the end of the line that `from` stands in.
fn find_line_end(text: &[u8], from: usize) -> (end: usize)
    requires
        from <= text@.len(),
    ensures
        end == line_end(text@, from as int),
        from <= end <= text@.len(),
{
    let mut i: usize = from;
    while i < text.len() && text[i] != 10
        invariant
            from <= i <= text@.len(),
            line_end(text@, from as int) == line_end(text@, i as int),
        decreases text@.len() - i,
    {
        i += 1;
    }
    i
}

/// Passes over the blanks from `from` on.
fn skip_spaces(line: &[u8], from: usize) -> (end: usize)
    requires
        from <= line@.len(),
    ensures
        end == spaces_end(line@, from as int),
        from <= end <= line@.len(),
{
    let mut i: usize = from;
    while i < line.len() && (line[i] == 32 || (9 <= line[i] && line[i] <= 13))
        invariant
            from <= i <= line@.len(),
            spaces_end(line@, from as int) == spaces_end(line@, i as int),
        decreases line@.len() - i,
    {
        i += 1;
    }
    i
}

/// Passes over the token that begins at `from`.
fn skip_token(line: &[u8], from: usize) -> (end: usize)
    requires
        from <= line@.len(),
    ensures
        end == token_end(line@, from as int),
        from <= end <= line@.len(),
{
    let mut i: usize = from;
    while i < line.len() && !(line[i] == 32 || (9 <= line[i] && line[i] <= 13))
        invariant
            from <= i <= line@.len(),
            token_end(line@, from as int) == token_end(line@, i as int),
        decreases line@.len() - i,
    {
        i += 1;
    }
    i
}

/// Reads the number that a token writes, if it is one that is no greater than `limit`.
fn read_number(token: &[u8], limit: usize) -> (value: Option<usize>)
    ensures
        match value {
            Some(n) => number(token@, limit as nat) == Some(n as nat),
            None => number(token@, limit as nat).is_none(),
        },
{
    let first: usize = if token.len() > 0 && token[0] == 43 {
        1
    } else {
        0
    };
    let digits = &token[first..token.len()];
    assert(digits@ =~= unsigned_part(token@));
    if digits.len() == 0 {
        return None;
    }
    let mut value: usize = 0;
    let mut i: usize = 0;
    while i < digits.len()
        invariant
            i <= digits@.len(),
            digits@ == unsigned_part(token@),
            all_digits(digits@.take(i as int)),
            value == digits_value(digits@.take(i as int)),
            value <= limit,
        decreases digits@.len() - i,
    {
        let byte = digits[i];
        proof {
            assert(digits@.take(i + 1).drop_last() =~= digits@.take(i as int));
            assert(digits@.take(i + 1).last() == byte);
        }
        if byte < 48 || byte > 57 {
            assert(!all_digits(digits@)) by {
                assert(!is_digit(digits@[i as int]));
            }
            return None;
        }
        let digit: usize = (byte - 48) as usize;
        if digit > limit || value > (limit - digit) / 10 {
            proof {
                assert(digits_value(digits@.take(i + 1)) > limit);
                if all_digits(digits@) {
                    lemma_digits_grow(digits@, i + 1);
                }
            }
            return None;
        }
        value = value * 10 + digit;
        proof {
            assert forall|k: int| 0 <= k < i + 1 implies is_digit(
                #[trigger] digits@.take(i + 1)[k],
            ) by {
                if k < i {
                    assert(digits@.take(i as int)[k] == digits@.take(i + 1)[k]);
                }
            }
        }
        i += 1;
    }
    proof {
        assert(digits@.take(i as int) =~= digits@);
    }
    Some(value)
}

/// What the scan of a line finds: the two numbers of its first two tokens, read within
/// `limit`, with the places of the tokens.
fn scan_line(line: &[u8], limit: usize) -> (found: (
    Option<usize>,
    Option<usize>,
    (usize, usize, usize, usize, usize),
))
    ensures
        token_places(line@) == (
            found.2.0 as int,
            found.2.1 as int,
            found.2.2 as int,
            found.2.3 as int,
            found.2.4 as int,
        ),
        found.2.4 <= line@.len(),
        match found.0 {
            Some(n) => number(line@.subrange(found.2.0 as int, found.2.1 as int), limit as nat)
                == Some(n as nat),
            None => number(
                line@.subrange(found.2.0 as int, found.2.1 as int),
                limit as nat,
            ).is_none(),
        },
        match found.1 {
            Some(n) => number(line@.subrange(found.2.2 as int, found.2.3 as int), limit as nat)
                == Some(n as nat),
            None => number(
                line@.subrange(found.2.2 as int, found.2.3 as int),
                limit as nat,
            ).is_none(),
        },
{
    let a = skip_spaces(line, 0);
    let b = skip_token(line, a);
    let c = skip_spaces(line, b);
    let d = skip_token(line, c);
    let e = skip_spaces(line, d);
    let first = read_number(&line[a..b], limit);
    let second = read_number(&line[c..d], limit);
    (first, second, (a, b, c, d, e))
}

/// Reads a lenient edge list: every line whose first two tokens are numbers gives the
/// edge between them, and every other line is passed over. Lines end at line feeds;
/// tokens are set apart by blanks.
pub fn parse_edge_list(text: &[u8]) -> (edges: Vec<(usize, usize)>)
    ensures
        edges@ == edges_from(text@, 0),
{
    let mut edges: Vec<(usize, usize)> = Vec::new();
    let mut start: usize = 0;
    proof {
        assert(Seq::<(usize, usize)>::empty() + edges_from(text@, 0) =~= edges_from(text@, 0));
    }
    while start < text.len()
        invariant
            start <= text@.len(),
            edges@ + edges_from(text@, start as int) == edges_from(text@, 0),
        decreases text@.len() - start,
    {
        let end = find_line_end(text, start);
        let ghost before = edges@;
        let ghost rest = edges_from(text@, end + 1);
        proof {
            lemma_line_end(text@, start as int);
        }
        let (first, second, _) = scan_line(&text[start..end], usize::MAX);
        match (first, second) {
            (Some(u), Some(v)) => {
                edges.push((u, v));
                assert(edges@ + rest =~= before + (seq![(u, v)] + rest));
            },
            _ => {},
        }
        if end < text.len() {
            start = end + 1;
        } else {
            start = end;
        }
    }
    proof {
        assert(edges@ + Seq::<(usize, usize)>::empty() =~= edges@);
    }
    edges
}

/// Reads a strict edge list: blank lines and lines that begin with `#` are passed
/// over, every other line must hold exactly two tokens, both numbers within 32 bits,
/// and gives the edge between them. Fails at the first line that does not.
pub fn parse_edge_lines(text: &[u8]) -> (result: Result<Vec<(usize, usize)>, BuildError>)
    ensures
        match result {
            Ok(edges) => strict_edges_from(text@, 0, 0) == Ok::<Seq<(usize, usize)>, BuildError>(
                edges@,
            ),
            Err(e) => strict_edges_from(text@, 0, 0) == Err::<Seq<(usize, usize)>, BuildError>(e),
        },
{
    let mut edges: Vec<(usize, usize)> = Vec::new();
    let mut start: usize = 0;
    let mut index: usize = 0;
    proof {
        let all = strict_edges_from(text@, 0, 0);
        if all.is_ok() {
            assert(Seq::<(usize, usize)>::empty() + all.unwrap() =~= all.unwrap());
        }
    }
    while start < text.len()
        invariant
            start <= text@.len(),
            index <= start,
            match strict_edges_from(text@, start as int, index as nat) {
                Ok(rest) => strict_edges_from(text@, 0, 0) == Ok::<
                    Seq<(usize, usize)>,
                    BuildError,
                >(edges@ + rest),
                Err(e) => strict_edges_from(text@, 0, 0) == Err::<Seq<(usize, usize)>, BuildError>(
                    e,
                ),
            },
        decreases text@.len() - start,
    {
        let end = find_line_end(text, start);
        let line = &text[start..end];
        let ghost before = edges@;
        let ghost later = strict_edges_from(text@, end + 1, (index + 1) as nat);
        proof {
            lemma_line_end(text@, start as int);
        }
        let (first, second, places) = scan_line(line, 0xffff_ffff);
        let (a, _, c, _, e) = places;
        if a < line.len() && line[a] != 35 {
            if c >= line.len() || e < line.len() {
                return Err(BuildError::InvalidFormat { line: index });
            }
            match (first, second) {
                (Some(u), Some(v)) => {
                    edges.push((u, v));
                    proof {
                        if later.is_ok() {
                            assert(edges@ + later.unwrap() =~= before + (seq![(u, v)]
                                + later.unwrap()));
                        }
                    }
                },
                _ => {
                    return Err(BuildError::InvalidVertex { line: index });
                },
            }
        }
        if end < text.len() {
            start = end + 1;
            index = index + 1;
        } else {
            start = end;
        }
    }
    proof {
        assert(edges@ + Seq::<(usize, usize)>::empty() =~= edges@);
    }
    Ok(edges)
}

/// The number of `x`, which is given the next free number if it has none.
fn number_of(ids: &mut HashMap<usize, usize>, x: usize) -> (id: usize)
    ensures
        final(ids)@ == with_vertex(old(ids)@, x),
        id == final(ids)@[x],
        final(ids)@.contains_key(x),
{
    let known = match ids.get(&x) {
        Some(id) => Some(*id),
        None => None,
    };
    match known {
        Some(id) => id,
        None => {
            let id = ids.len();
            ids.insert(x, id);
            id
        },
    }
}

/// A numbering that gives its vertices different numbers, all below their count.
pub open spec fn compact_numbering(ids: Map<usize, usize>) -> bool {
    &&& ids.dom().finite()
    &&& forall|x: usize| ids.contains_key(x) ==> #[trigger] ids[x] < ids.dom().len()
    &&& forall|x: usize, y: usize|
        ids.contains_key(x) && ids.contains_key(y) && x != y ==> #[trigger] ids[x]
            != #[trigger] ids[y]
}

/// Numbering one more vertex keeps a numbering compact and keeps the numbers given.
pub proof fn lemma_with_vertex(ids: Map<usize, usize>, x: usize)
    requires
        compact_numbering(ids),
    ensures
        compact_numbering(with_vertex(ids, x)),
        with_vertex(ids, x).contains_key(x),
        with_vertex(ids, x).dom().len() >= ids.dom().len(),
        forall|y: usize| ids.contains_key(y) ==> with_vertex(ids, x).contains_key(y)
            && #[trigger] with_vertex(ids, x)[y] == ids[y],
{
    if !ids.contains_key(x) {
        lemma_below((usize::MAX + 1) as nat);
        let others = below((usize::MAX + 1) as nat).remove(x);
        assert(ids.dom().subset_of(others));
        vstd::set_lib::lemma_len_subset(ids.dom(), others);
        assert(ids.dom().len() <= usize::MAX);
        let more = with_vertex(ids, x);
        assert(more.dom() =~= ids.dom().insert(x));
        assert forall|a: usize, b: usize|
            more.contains_key(a) && more.contains_key(b) && a != b implies #[trigger] more[a]
            != #[trigger] more[b] by {
            if a != x && b != x {
                assert(ids[a] != ids[b]);
            } else if a == x {
                assert(ids[b] < ids.dom().len());
            } else {
                assert(ids[a] < ids.dom().len());
            }
        }
        assert forall|a: usize| more.contains_key(a) implies #[trigger] more[a]
            < more.dom().len() by {
            if a != x {
                assert(ids[a] < ids.dom().len());
            }
        }
    }
}

/// The numbering of the vertices of an edge list is compact, and only grows with more
/// edges.
pub proof fn lemma_numbering(edges: Seq<(usize, usize)>, count: nat)
    ensures
        compact_numbering(numbering(edges, count)),
        count > 0 ==> numbering(edges, count).dom().len() >= numbering(
            edges,
            (count - 1) as nat,
        ).dom().len(),
        count > 0 ==> forall|y: usize| #[trigger]
            numbering(edges, (count - 1) as nat).contains_key(y) ==> numbering(
                edges,
                count,
            ).contains_key(y) && numbering(edges, count)[y] == numbering(
                edges,
                (count - 1) as nat,
            )[y],
        count > 0 && edges[count - 1].0 != edges[count - 1].1 ==> numbering(
            edges,
            count,
        ).contains_key(edges[count - 1].0) && numbering(edges, count).contains_key(
            edges[count - 1].1,
        ),
    decreases count,
{
    if count > 0 {
        lemma_numbering(edges, (count - 1) as nat);
        let earlier = numbering(edges, (count - 1) as nat);
        let edge = edges[count - 1];
        if edge.0 != edge.1 {
            lemma_with_vertex(earlier, edge.0);
            lemma_with_vertex(with_vertex(earlier, edge.0), edge.1);
        }
    } else {
        assert(numbering(edges, 0).dom() =~= Set::<usize>::empty());
    }
}

/// The renumbered edges join different vertices, all numbered below the number of
/// vertices named so far.
pub proof fn lemma_normalized(edges: Seq<(usize, usize)>, count: nat)
    ensures
        normalized(edges, count).len() <= count,
        forall|i: int|
            0 <= i < normalized(edges, count).len() ==> {
                &&& (#[trigger] normalized(edges, count)[i]).0 < numbering(edges, count).dom().len()
                &&& normalized(edges, count)[i].1 < numbering(edges, count).dom().len()
                &&& normalized(edges, count)[i].0 != normalized(edges, count)[i].1
            },
    decreases count,
{
    if count > 0 {
        lemma_normalized(edges, (count - 1) as nat);
        lemma_numbering(edges, count);
        let earlier = normalized(edges, (count - 1) as nat);
        let edge = edges[count - 1];
        let ids = numbering(edges, count);
        let now = normalized(edges, count);
        assert forall|i: int| 0 <= i < now.len() implies {
            &&& (#[trigger] now[i]).0 < ids.dom().len()
            &&& now[i].1 < ids.dom().len()
            &&& now[i].0 != now[i].1
        } by {
            if i < earlier.len() {
                assert(now[i] == earlier[i]);
            } else {
                assert(now[i] == (ids[edge.0], ids[edge.1]));
            }
        }
    }
}

/// Every number below the number of vertices named so far is an end of a renumbered
/// edge.
pub proof fn lemma_normalized_covers(edges: Seq<(usize, usize)>, count: nat)
    ensures
        forall|w: usize|
            w < numbering(edges, count).dom().len() ==> #[trigger] is_end(
                normalized(edges, count),
                normalized(edges, count).len() as int,
                w,
            ),
    decreases count,
{
    if count == 0 {
        assert(numbering(edges, 0).dom() =~= Set::<usize>::empty());
    } else {
        lemma_normalized_covers(edges, (count - 1) as nat);
        lemma_numbering(edges, (count - 1) as nat);
        let before = numbering(edges, (count - 1) as nat);
        let earlier = normalized(edges, (count - 1) as nat);
        let edge = edges[count - 1];
        let now = normalized(edges, count);
        let ids = numbering(edges, count);
        if edge.0 != edge.1 {
            let middle = with_vertex(before, edge.0);
            lemma_with_vertex(before, edge.0);
            lemma_with_vertex(middle, edge.1);
            if !before.contains_key(edge.0) {
                assert(middle.dom() =~= before.dom().insert(edge.0));
            }
            if !middle.contains_key(edge.1) {
                assert(ids.dom() =~= middle.dom().insert(edge.1));
            }
            assert forall|w: usize| w < ids.dom().len() implies #[trigger] is_end(
                now,
                now.len() as int,
                w,
            ) by {
                if w < before.dom().len() {
                    assert(is_end(earlier, earlier.len() as int, w));
                    let i = choose|i: int|
                        0 <= i < earlier.len() && i < earlier.len() && #[trigger] touches(
                            earlier[i],
                            w,
                        );
                    assert(now[i] == earlier[i]);
                    assert(touches(now[i], w));
                } else {
                    assert(now[now.len() - 1] == (ids[edge.0], ids[edge.1]));
                    assert(touches(now[now.len() - 1], w));
                }
            }
        }
    }
}

/// Renumbers the edges and counts the vertices that they name.
fn renumber(edges: &Vec<(usize, usize)>) -> (result: (Vec<(usize, usize)>, usize))
    ensures
        result.0@ == normalized(edges@, edges@.len()),
        result.1 == numbering(edges@, edges@.len()).dom().len(),
{
    let mut ids: HashMap<usize, usize> = HashMap::new();
    let mut result: Vec<(usize, usize)> = Vec::new();
    let mut i: usize = 0;
    while i < edges.len()
        invariant
            i <= edges@.len(),
            ids@ == numbering(edges@, i as nat),
            result@ == normalized(edges@, i as nat),
        decreases edges@.len() - i,
    {
        let (u, v) = edges[i];
        if u != v {
            let first = number_of(&mut ids, u);
            let second = number_of(&mut ids, v);
            assert(ids@[u] == first);
            result.push((first, second));
        }
        i += 1;
    }
    (result, ids.len())
}

/// Drops the loops from an edge list and renumbers the vertices of the other edges
/// with 0, 1, 2 and so on, in the order in which the edges name them.
pub fn normalize_edges(edges: Vec<(usize, usize)>) -> (result: Vec<(usize, usize)>)
    ensures
        result@ == normalized(edges@, edges@.len()),
{
    renumber(&edges).0
}

/// Some edge is a loop.
pub open spec fn has_loop(edges: Seq<(usize, usize)>) -> bool {
    exists|i: int| 0 <= i < edges.len() && (#[trigger] edges[i]).0 == edges[i].1
}

/// Some edge joins two vertices that an earlier edge joins.
pub open spec fn has_repeat(edges: Seq<(usize, usize)>) -> bool {
    exists|i: int| 0 <= i < edges.len() && is_joined(edges, i, (#[trigger] edges[i]).0, edges[i].1)
}

/// Why no graph can be built from the text of a strict edge list, if none can: the
/// first faulty line; else a loop; else more vertices than a graph can have; else an
/// edge that is given twice.
pub open spec fn build_fault(text: Seq<u8>) -> Option<BuildError> {
    match strict_edges_from(text, 0, 0) {
        Err(e) => Some(e),
        Ok(edges) => if has_loop(edges) {
            Some(BuildError::SelfLoopNotAllowed)
        } else if !weighable(numbering(edges, edges.len()).dom().len()) {
            Some(BuildError::TooManyVertices)
        } else if has_repeat(normalized(edges, edges.len())) {
            Some(BuildError::EdgeAlreadyExists)
        } else {
            None
        },
    }
}

/// Builds the graph of the text of a strict edge list, with its vertices renumbered
/// with 0, 1, 2 and so on in the order in which the edges name them. Every vertex of
/// the graph is an end of an edge, so none is isolated.
pub fn build_graph(text: &[u8]) -> (result: Result<UndirectedGraph, BuildError>)
    ensures
        match result {
            Ok(graph) => {
                &&& build_fault(text@).is_none()
                &&& graph.wf()
                &&& !has_isolated(graph@)
                &&& graph@.len() == numbering(
                    strict_edges_from(text@, 0, 0).unwrap(),
                    strict_edges_from(text@, 0, 0).unwrap().len(),
                ).dom().len()
                &&& forall|a: usize, b: usize|
                    adjacent(graph@, a as int, b as int) <==> is_joined(
                        normalized(
                            strict_edges_from(text@, 0, 0).unwrap(),
                            strict_edges_from(text@, 0, 0).unwrap().len(),
                        ),
                        strict_edges_from(text@, 0, 0).unwrap().len() as int,
                        a,
                        b,
                    )
            },
            Err(e) => build_fault(text@) == Some(e),
        },
{
    let edges = match parse_edge_lines(text) {
        Ok(edges) => edges,
        Err(e) => {
            return Err(e);
        },
    };
    let mut i: usize = 0;
    while i < edges.len()
        invariant
            i <= edges@.len(),
            strict_edges_from(text@, 0, 0) == Ok::<Seq<(usize, usize)>, BuildError>(edges@),
            forall|j: int| 0 <= j < i ==> (#[trigger] edges@[j]).0 != edges@[j].1,
        decreases edges@.len() - i,
    {
        if edges[i].0 == edges[i].1 {
            assert(edges@[i as int].0 == edges@[i as int].1);
            assert(has_loop(edges@));
            return Err(BuildError::SelfLoopNotAllowed);
        }
        i += 1;
    }
    let (renumbered, order) = renumber(&edges);
    if !UndirectedGraph::admits(order) {
        return Err(BuildError::TooManyVertices);
    }
    proof {
        lemma_normalized(edges@, edges@.len());
    }
    match UndirectedGraph::from_edges(order, renumbered.as_slice()) {
        Ok(graph) => {
            proof {
                if has_repeat(renumbered@) {
                    let k = choose|k: int|
                        0 <= k < renumbered@.len() && is_joined(
                            renumbered@,
                            k,
                            (#[trigger] renumbered@[k]).0,
                            renumbered@[k].1,
                        );
                    assert(rejection_at(order as nat, renumbered@, k).is_some());
                }
                assert forall|a: usize, b: usize|
                    is_joined(renumbered@, renumbered@.len() as int, a, b) <==> is_joined(
                        renumbered@,
                        edges@.len() as int,
                        a,
                        b,
                    ) by {}
                lemma_normalized_covers(edges@, edges@.len());
                assert forall|w: int| 0 <= w < graph@.len() implies (#[trigger] graph@[w]).len()
                    > 0 by {
                    assert(is_end(renumbered@, renumbered@.len() as int, w as usize));
                    let i = choose|i: int|
                        0 <= i < renumbered@.len() && i < renumbered@.len() && #[trigger] touches(
                            renumbered@[i],
                            w as usize,
                        );
                    let other = if renumbered@[i].0 == w {
                        renumbered@[i].1
                    } else {
                        renumbered@[i].0
                    };
                    assert(joins(renumbered@[i], w as usize, other));
                    assert(is_joined(renumbered@, renumbered@.len() as int, w as usize, other));
                    assert(adjacent(graph@, w, other as int));
                }
            }
            Ok(graph)
        },
        Err(e) => {
            proof {
                let k = choose|k: int|
                    0 <= k < renumbered@.len() && rejection_at(order as nat, renumbered@, k)
                        == Some(e);
                assert(is_joined(renumbered@, k, renumbered@[k].0, renumbered@[k].1));
            }
            Err(BuildError::EdgeAlreadyExists)
        },
    }
}

} // verus!
