//! The DIMACS clique format: one record per line, a problem line
//! `p <tag> N M` that gives the number of vertices, and edge lines `e U V`
//! with endpoints counted from one. Blank lines, lines that start with `c`
//! and lines of any other shape are passed over.

use crate::graph::edge_listed;
use crate::graph::Graph;
use vstd::prelude::*;

verus! {

/// Why a text is no graph.
#[derive(Clone, Copy, Debug, PartialEq, Eq)]
pub enum DimacsError {
    /// An edge line stands before the problem line.
    EdgeBeforeProblem,
    /// A number is expected, and the token is none that fits the machine.
    NotANumber,
    /// An endpoint is zero or exceeds the number of vertices.
    EndpointOutOfRange,
    /// An edge joins a vertex with itself.
    SelfLoop,
    /// The square of the number of vertices does not fit the machine.
    TooManyVertices,
}

/// What one line says.
pub enum Record {
    /// Nothing: a blank line, a comment, or a line of no known shape.
    Skip,
    /// A problem line with its number of vertices, or with a token that is
    /// no number.
    Problem(Option<usize>),
    /// An edge line with its two endpoints, or with a token that is no
    /// number.
    Edge(Option<(usize, usize)>),
}

/// `b` is white space.
pub open spec fn is_space(b: u8) -> bool {
    b == 32 || (9 <= b <= 13)
}

/// The end of the line that starts at `pos`: the position of the next line
/// feed, or the end of the text.
pub open spec fn line_end(s: Seq<u8>, pos: int) -> int
    decreases s.len() - pos,
{
    if pos >= s.len() || pos < 0 || s[pos] == 10 {
        pos
    } else {
        line_end(s, pos + 1)
    }
}

/// The first position from `pos` on, before `end`, that holds no white
/// space; `end` if there is none.
pub open spec fn skip_spaces(s: Seq<u8>, pos: int, end: int) -> int
    decreases end - pos,
{
    if pos >= end || !is_space(s[pos]) {
        pos
    } else {
        skip_spaces(s, pos + 1, end)
    }
}

/// The first position from `pos` on, before `end`, that holds white space;
/// `end` if there is none.
pub open spec fn skip_word(s: Seq<u8>, pos: int, end: int) -> int
    decreases end - pos,
{
    if pos >= end || is_space(s[pos]) {
        pos
    } else {
        skip_word(s, pos + 1, end)
    }
}

/// Every byte from `a` to `b` is a decimal digit.
pub open spec fn all_digits(s: Seq<u8>, a: int, b: int) -> bool {
    forall|i: int| a <= i < b ==> 48 <= #[trigger] s[i] <= 57
}

/// The value of the decimal digits from `a` to `b`.
pub open spec fn digits_value(s: Seq<u8>, a: int, b: int) -> int
    decreases b - a,
{
    if b <= a {
        0
    } else {
        digits_value(s, a, b - 1) * 10 + (s[b - 1] - 48)
    }
}

/// The number that the token from `a` to `b` spells: an optional plus sign
/// and at least one decimal digit, with a value that fits in `usize`.
pub open spec fn number_at(s: Seq<u8>, a: int, b: int) -> Option<usize> {
    let start = if a < b && s[a] == 43 { a + 1 } else { a };
    if start < b && all_digits(s, start, b) && digits_value(s, start, b) <= usize::MAX {
        Some(digits_value(s, start, b) as usize)
    } else {
        None
    }
}

/// What the line from `lo` to `hi` says.
pub open spec fn record_of(s: Seq<u8>, lo: int, hi: int) -> Record {
    let a0 = skip_spaces(s, lo, hi);
    let b0 = skip_word(s, a0, hi);
    let a1 = skip_spaces(s, b0, hi);
    let b1 = skip_word(s, a1, hi);
    let a2 = skip_spaces(s, b1, hi);
    let b2 = skip_word(s, a2, hi);
    let a3 = skip_spaces(s, b2, hi);
    let b3 = skip_word(s, a3, hi);
    if a0 >= hi || s[a0] == 99 {
        Record::Skip
    } else if b0 - a0 == 1 && s[a0] == 112 && a3 < hi {
        match (number_at(s, a2, b2), number_at(s, a3, b3)) {
            (Some(n), Some(_)) => Record::Problem(Some(n)),
            _ => Record::Problem(None),
        }
    } else if b0 - a0 == 1 && s[a0] == 101 && a2 < hi {
        match (number_at(s, a1, b1), number_at(s, a2, b2)) {
            (Some(u), Some(v)) => Record::Edge(Some((u, v))),
            _ => Record::Edge(None),
        }
    } else {
        Record::Skip
    }
}

/// The number of vertices and the edges, counted from zero, that the text
/// from `pos` on gives, after the lines before `pos` gave `n` vertices and
/// the edges `edges`; or the first error. `header` says whether a problem
/// line has been read.
pub open spec fn parse_from(
    s: Seq<u8>,
    pos: int,
    n: usize,
    header: bool,
    edges: Seq<(usize, usize)>,
) -> Result<(usize, Seq<(usize, usize)>), DimacsError>
    decreases s.len() + 1 - pos,
{
    let end = line_end(s, pos);
    if pos >= s.len() || end < pos || end > s.len() {
        Ok((n, edges))
    } else {
        match record_of(s, pos, end) {
            Record::Skip => parse_from(s, end + 1, n, header, edges),
            Record::Problem(None) => Err(DimacsError::NotANumber),
            Record::Problem(Some(m)) => if m * m <= usize::MAX {
                parse_from(s, end + 1, m, true, edges)
            } else {
                Err(DimacsError::TooManyVertices)
            },
            Record::Edge(ends) => if !header {
                Err(DimacsError::EdgeBeforeProblem)
            } else {
                match ends {
                    None => Err(DimacsError::NotANumber),
                    Some((u, v)) => if u < 1 || v < 1 || u > n || v > n {
                        Err(DimacsError::EndpointOutOfRange)
                    } else if u == v {
                        Err(DimacsError::SelfLoop)
                    } else {
                        parse_from(s, end + 1, n, header, edges.push(((u - 1) as usize, (v - 1) as usize)))
                    },
                }
            },
        }
    }
}

/// What the whole text gives.
pub open spec fn parse_text(s: Seq<u8>) -> Result<(usize, Seq<(usize, usize)>), DimacsError> {
    parse_from(s, 0, 0, false, Seq::empty())
}

/// More digits give no smaller value.
pub proof fn lemma_digits_monotone(s: Seq<u8>, a: int, j: int, b: int)
    requires
        a <= j <= b,
        all_digits(s, a, b),
    ensures
        0 <= digits_value(s, a, j) <= digits_value(s, a, b),
    decreases b - j,
{
    lemma_digits_nonnegative(s, a, j);
    if j < b {
        lemma_digits_monotone(s, a, j, b - 1);
        assert(48 <= s[b - 1] <= 57);
    }
}

/// The value of digits is not negative.
pub proof fn lemma_digits_nonnegative(s: Seq<u8>, a: int, b: int)
    requires
        all_digits(s, a, b),
    ensures
        0 <= digits_value(s, a, b),
    decreases b - a,
{
    if a < b {
        lemma_digits_nonnegative(s, a, b - 1);
        assert(48 <= s[b - 1] <= 57);
    }
}

/// Whether `b` is white space.
pub fn space(b: u8) -> (r: bool)
    ensures
        r == is_space(b),
{
    b == 32 || (9 <= b && b <= 13)
}

/// The end of the line that starts at `pos`.
pub fn find_line_end(bytes: &[u8], pos: usize) -> (end: usize)
    requires
        pos <= bytes@.len(),
    ensures
        end == line_end(bytes@, pos as int),
        pos <= end <= bytes@.len(),
{
    let mut i = pos;
    while i < bytes.len() && bytes[i] != 10
        invariant
            pos <= i <= bytes@.len(),
            line_end(bytes@, pos as int) == line_end(bytes@, i as int),
        decreases bytes@.len() - i,
    {
        i = i + 1;
    }
    i
}

/// The first position from `pos` on, before `end`, without white space.
pub fn after_spaces(bytes: &[u8], pos: usize, end: usize) -> (r: usize)
    requires
        pos <= end <= bytes@.len(),
    ensures
        r == skip_spaces(bytes@, pos as int, end as int),
        pos <= r <= end,
{
    let mut i = pos;
    while i < end && space(bytes[i])
        invariant
            pos <= i <= end,
            end <= bytes@.len(),
            skip_spaces(bytes@, pos as int, end as int) == skip_spaces(bytes@, i as int, end as int),
        decreases end - i,
    {
        i = i + 1;
    }
    i
}

/// The first position from `pos` on, before `end`, with white space.
pub fn after_word(bytes: &[u8], pos: usize, end: usize) -> (r: usize)
    requires
        pos <= end <= bytes@.len(),
    ensures
        r == skip_word(bytes@, pos as int, end as int),
        pos <= r <= end,
{
    let mut i = pos;
    while i < end && !space(bytes[i])
        invariant
            pos <= i <= end,
            end <= bytes@.len(),
            skip_word(bytes@, pos as int, end as int) == skip_word(bytes@, i as int, end as int),
        decreases end - i,
    {
        i = i + 1;
    }
    i
}

/// The number that the token from `a` to `b` spells.
pub fn parse_number(bytes: &[u8], a: usize, b: usize) -> (r: Option<usize>)
    requires
        a <= b <= bytes@.len(),
    ensures
        r == number_at(bytes@, a as int, b as int),
{
    let start = if a < b && bytes[a] == 43 { a + 1 } else { a };
    if start >= b {
        return None;
    }
    let mut acc: usize = 0;
    let mut i = start;
    while i < b
        invariant
            a <= start <= i <= b,
            start < b,
            start as int == if a < b && bytes@[a as int] == 43 { a + 1 } else { a as int },
            b <= bytes@.len(),
            all_digits(bytes@, start as int, i as int),
            acc == digits_value(bytes@, start as int, i as int),
        decreases b - i,
    {
        let c = bytes[i];
        if c < 48 || c > 57 {
            proof {
                if all_digits(bytes@, start as int, b as int) {
                    assert(48 <= bytes@[i as int] <= 57);
                }
            }
            return None;
        }
        let d = (c - 48) as usize;
        assert(digits_value(bytes@, start as int, i as int + 1) == acc * 10 + d);
        if acc > (usize::MAX - d) / 10 {
            proof {
                if all_digits(bytes@, start as int, b as int) {
                    lemma_digits_monotone(bytes@, start as int, i as int + 1, b as int);
                }
            }
            return None;
        }
        acc = acc * 10 + d;
        i = i + 1;
    }
    Some(acc)
}

/// What the line from `lo` to `hi` says.
pub fn read_record(bytes: &[u8], lo: usize, hi: usize) -> (r: Record)
    requires
        lo <= hi <= bytes@.len(),
    ensures
        r == record_of(bytes@, lo as int, hi as int),
{
    let a0 = after_spaces(bytes, lo, hi);
    let b0 = after_word(bytes, a0, hi);
    let a1 = after_spaces(bytes, b0, hi);
    let b1 = after_word(bytes, a1, hi);
    let a2 = after_spaces(bytes, b1, hi);
    let b2 = after_word(bytes, a2, hi);
    let a3 = after_spaces(bytes, b2, hi);
    let b3 = after_word(bytes, a3, hi);
    if a0 >= hi || bytes[a0] == 99 {
        Record::Skip
    } else if b0 - a0 == 1 && bytes[a0] == 112 && a3 < hi {
        let vertices = parse_number(bytes, a2, b2);
        let hint = parse_number(bytes, a3, b3);
        match (vertices, hint) {
            (Some(n), Some(_)) => Record::Problem(Some(n)),
            _ => Record::Problem(None),
        }
    } else if b0 - a0 == 1 && bytes[a0] == 101 && a2 < hi {
        let left = parse_number(bytes, a1, b1);
        let right = parse_number(bytes, a2, b2);
        match (left, right) {
            (Some(u), Some(v)) => Record::Edge(Some((u, v))),
            _ => Record::Edge(None),
        }
    } else {
        Record::Skip
    }
}

impl Graph {
    /// Reads a graph in the DIMACS clique format.
    ///
    /// The graph has the vertices of the last problem line and the edges of
    /// the edge lines; an edge that is listed twice counts once. The text is
    /// refused where an edge line stands before the problem line, where a
    /// number is expected and none is found, where an endpoint is out of
    /// range, where an edge joins a vertex with itself, and where the graph
    /// would not fit the machine. A text without a problem line gives the
    /// graph without vertices.
    pub fn parse_dimacs(bytes: &[u8]) -> (r: Result<Graph, DimacsError>)
        ensures
            match parse_text(bytes@) {
                Ok((n, edges)) => r is Ok && r->Ok_0.wf() && r->Ok_0@.len() == n && forall|
                    a: int,
                    b: int,
                |
                    0 <= a < n && 0 <= b < n ==> (#[trigger] r->Ok_0@[a][b] <==> edge_listed(
                        edges,
                        a,
                        b,
                    )),
                Err(e) => r is Err && r->Err_0 == e,
            },
    {
        let mut n: usize = 0;
        let mut header = false;
        let mut edges: Vec<(usize, usize)> = Vec::new();
        let mut pos: usize = 0;
        while pos < bytes.len()
            invariant
                pos <= bytes@.len(),
                n * n <= usize::MAX,
                parse_text(bytes@) == parse_from(bytes@, pos as int, n, header, edges@),
                forall|i: int| 0 <= i < edges@.len() ==> (#[trigger] edges@[i]).0 != edges@[i].1,
            decreases bytes@.len() + 1 - pos,
        {
            let end = find_line_end(bytes, pos);
            let ghost at = pos as int;
            let ghost n0 = n;
            let ghost header0 = header;
            let ghost edges0 = edges@;
            match read_record(bytes, pos, end) {
                Record::Skip => {},
                Record::Problem(None) => {
                    return Err(DimacsError::NotANumber);
                },
                Record::Problem(Some(m)) => {
                    let fits = match m.checked_mul(m) {
                        Some(_) => true,
                        None => false,
                    };
                    if !fits {
                        return Err(DimacsError::TooManyVertices);
                    }
                    n = m;
                    header = true;
                },
                Record::Edge(ends) => {
                    if !header {
                        return Err(DimacsError::EdgeBeforeProblem);
                    }
                    match ends {
                        None => {
                            return Err(DimacsError::NotANumber);
                        },
                        Some((u, v)) => {
                            if u < 1 || v < 1 || u > n || v > n {
                                return Err(DimacsError::EndpointOutOfRange);
                            }
                            if u == v {
                                return Err(DimacsError::SelfLoop);
                            }
                            edges.push((u - 1, v - 1));
                        },
                    }
                },
            }
            proof {
                assert(parse_from(bytes@, at, n0, header0, edges0) == parse_from(
                    bytes@,
                    end + 1,
                    n,
                    header,
                    edges@,
                ));
                if end >= bytes@.len() {
                    assert(parse_from(bytes@, end + 1, n, header, edges@) == parse_from(
                        bytes@,
                        end as int,
                        n,
                        header,
                        edges@,
                    ));
                }
            }
            pos = if end < bytes.len() { end + 1 } else { end };
        }
        Ok(Graph::from_edge_list(n, edges.as_slice()))
    }
}

} // verus!
