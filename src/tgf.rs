use std::collections::HashMap;
use vstd::prelude::*;

use crate::digraph::{key_list, with_edge, Graph, OrientedEdge, VertexId};
use crate::text::{chars_of, decimal, parse_u32, push_decimal, read_u32, string_of_chars, TextValue};

verus! {

/// Why a text is not a graph.
#[derive(Debug, Clone, Copy, PartialEq, Eq, Structural)]
pub enum TgfError {
    /// There is no `#` between the vertices and the edges.
    MissingSeparator,
    /// A vertex line has no space between its id and its value.
    MissingVertexValue,
    /// An edge line has no space after its source id.
    MissingEdgeTarget,
    /// An edge line has no space after its destination id.
    MissingEdgeValue,
    /// An id is not a decimal `u32`.
    InvalidId,
    /// A vertex or edge value does not read as its type.
    InvalidValue,
}

impl TgfError {
    /// Whether the text breaks the layout of lines, rather than holding a
    /// token that does not read as its type.
    pub fn is_format_error(&self) -> (r: bool)
        ensures
            r == !(*self is InvalidId || *self is InvalidValue),
    {
        match self {
            TgfError::InvalidId | TgfError::InvalidValue => false,
            _ => true,
        }
    }
}

/// Whether `c` is white space in Unicode's sense, as `str::trim` takes it.
pub open spec fn is_white_space(c: char) -> bool {
    ||| '\t' <= c <= '\r'
    ||| c == ' '
    ||| c == '\u{85}'
    ||| c == '\u{a0}'
    ||| c == '\u{1680}'
    ||| '\u{2000}' <= c <= '\u{200a}'
    ||| c == '\u{2028}'
    ||| c == '\u{2029}'
    ||| c == '\u{202f}'
    ||| c == '\u{205f}'
    ||| c == '\u{3000}'
}

/// `s` without its leading white space.
pub open spec fn trim_start(s: Seq<char>) -> Seq<char>
    decreases s.len(),
{
    if s.len() > 0 && is_white_space(s[0]) {
        trim_start(s.drop_first())
    } else {
        s
    }
}

/// `s` without its trailing white space.
pub open spec fn trim_end(s: Seq<char>) -> Seq<char>
    decreases s.len(),
{
    if s.len() > 0 && is_white_space(s.last()) {
        trim_end(s.drop_last())
    } else {
        s
    }
}

/// `s` without white space at either end.
pub open spec fn trim(s: Seq<char>) -> Seq<char> {
    trim_end(trim_start(s))
}

/// How many characters of `s` come before the first `c`; all of them where
/// there is none.
pub open spec fn span_until(s: Seq<char>, c: char) -> nat
    decreases s.len(),
{
    if s.len() == 0 || s[0] == c {
        0
    } else {
        1 + span_until(s.drop_first(), c)
    }
}

/// `s` cut at its first `c`, which belongs to neither part.
pub open spec fn split_once(s: Seq<char>, c: char) -> Option<(Seq<char>, Seq<char>)> {
    let k = span_until(s, c) as int;
    if k < s.len() {
        Some((s.take(k), s.skip(k + 1)))
    } else {
        None
    }
}

/// A line without one trailing carriage return.
pub open spec fn strip_cr(s: Seq<char>) -> Seq<char> {
    if s.len() > 0 && s.last() == '\r' {
        s.drop_last()
    } else {
        s
    }
}

/// The first line of `s`, without its end of line.
pub open spec fn first_line(s: Seq<char>) -> Seq<char> {
    strip_cr(s.take(span_until(s, '\n') as int))
}

/// What follows the first line of `s` and its end of line.
pub open spec fn after_first_line(s: Seq<char>) -> Seq<char> {
    let k = span_until(s, '\n') as int;
    if k < s.len() {
        s.skip(k + 1)
    } else {
        Seq::empty()
    }
}

/// The vertex on one line of the vertex section: nothing for an empty line.
pub open spec fn read_vertex_line<V: TextValue>(line: Seq<char>) -> Result<Option<(VertexId, Seq<char>)>, TgfError> {
    if line.len() == 0 {
        Ok(None)
    } else {
        match split_once(line, ' ') {
            None => Err(TgfError::MissingVertexValue),
            Some((id, value)) => match parse_u32(trim(id)) {
                None => Err(TgfError::InvalidId),
                Some(n) => match V::read(trim(value)) {
                    None => Err(TgfError::InvalidValue),
                    Some(t) => Ok(Some((n, t))),
                },
            },
        }
    }
}

/// The edge on one line of the edge section: nothing for an empty line.
pub open spec fn read_edge_line<E: TextValue>(line: Seq<char>) -> Result<Option<(VertexId, VertexId, Seq<char>)>, TgfError> {
    if line.len() == 0 {
        Ok(None)
    } else {
        match split_once(line, ' ') {
            None => Err(TgfError::MissingEdgeTarget),
            Some((from, suffix)) => match split_once(suffix, ' ') {
                None => Err(TgfError::MissingEdgeValue),
                Some((to, value)) => match parse_u32(trim(from)) {
                    None => Err(TgfError::InvalidId),
                    Some(a) => match parse_u32(trim(to)) {
                        None => Err(TgfError::InvalidId),
                        Some(b) => match E::read(trim(value)) {
                            None => Err(TgfError::InvalidValue),
                            Some(t) => Ok(Some((a, b, t))),
                        },
                    },
                },
            },
        }
    }
}

/// The vertices of a vertex section, each id with the text of its last value,
/// added to `acc`; or the first line's error.
pub open spec fn read_vertex_section<V: TextValue>(s: Seq<char>, acc: Map<VertexId, Seq<char>>) -> Result<Map<VertexId, Seq<char>>, TgfError>
    decreases s.len(),
{
    if s.len() == 0 {
        Ok(acc)
    } else {
        match read_vertex_line::<V>(first_line(s)) {
            Err(e) => Err(e),
            Ok(None) => read_vertex_section::<V>(after_first_line(s), acc),
            Ok(Some((id, t))) => read_vertex_section::<V>(after_first_line(s), acc.insert(id, t)),
        }
    }
}

/// The edges of an edge section set one by one into `acc`, where an edge out
/// of an id without a row is passed over; or the first line's error.
pub open spec fn read_edge_section<E: TextValue>(
    s: Seq<char>,
    acc: Map<VertexId, Map<VertexId, Seq<char>>>,
) -> Result<Map<VertexId, Map<VertexId, Seq<char>>>, TgfError>
    decreases s.len(),
{
    if s.len() == 0 {
        Ok(acc)
    } else {
        match read_edge_line::<E>(first_line(s)) {
            Err(e) => Err(e),
            Ok(None) => read_edge_section::<E>(after_first_line(s), acc),
            Ok(Some((a, b, t))) => read_edge_section::<E>(after_first_line(s), with_edge(acc, a, b, t)),
        }
    }
}

/// An empty row for each vertex.
pub open spec fn empty_rows(vs: Map<VertexId, Seq<char>>) -> Map<VertexId, Map<VertexId, Seq<char>>> {
    Map::new(|k: VertexId| vs.contains_key(k), |k: VertexId| Map::empty())
}

/// The graph that a text describes, as the texts of its vertex values and of
/// its edge values; or the first error in it.
pub open spec fn read_graph<V: TextValue, E: TextValue>(text: Seq<char>) -> Result<
    (Map<VertexId, Seq<char>>, Map<VertexId, Map<VertexId, Seq<char>>>),
    TgfError,
> {
    match split_once(text, '#') {
        None => Err(TgfError::MissingSeparator),
        Some((vertex_part, edge_part)) => match read_vertex_section::<V>(trim(vertex_part), Map::empty()) {
            Err(e) => Err(e),
            Ok(vs) => match read_edge_section::<E>(trim(edge_part), empty_rows(vs)) {
                Err(e) => Err(e),
                Ok(es) => Ok((vs, es)),
            },
        },
    }
}

/// The texts of a graph's vertex values.
pub open spec fn vertex_texts<V: TextValue, E>(g: &Graph<V, E>) -> Map<VertexId, Seq<char>> {
    g.vertex_map().map_values(|v: V| v.text())
}

/// The texts of a graph's edge values, row by row.
pub open spec fn edge_texts<V, E: TextValue>(g: &Graph<V, E>) -> Map<VertexId, Map<VertexId, Seq<char>>> {
    g.edge_map().map_values(|row: Map<VertexId, E>| row.map_values(|e: E| e.text()))
}

/// Whether `c` is white space, as `is_white_space` says.
fn white_space(c: char) -> (r: bool)
    ensures
        r == is_white_space(c),
{
    ('\t' <= c && c <= '\r') || c == ' ' || c == '\u{85}' || c == '\u{a0}' || c == '\u{1680}'
        || ('\u{2000}' <= c && c <= '\u{200a}') || c == '\u{2028}' || c == '\u{2029}'
        || c == '\u{202f}' || c == '\u{205f}' || c == '\u{3000}'
}

/// The position of the first `c` in `s[lo..hi]`, or `hi`.
fn find_from(s: &Vec<char>, lo: usize, hi: usize, c: char) -> (k: usize)
    requires
        lo <= hi <= s@.len(),
    ensures
        lo <= k <= hi,
        k - lo == span_until(s@.subrange(lo as int, hi as int), c),
{
    let mut j: usize = lo;
    while j < hi && s[j] != c
        invariant
            lo <= j <= hi <= s@.len(),
            span_until(s@.subrange(lo as int, hi as int), c) == (j - lo) + span_until(s@.subrange(j as int, hi as int), c),
        decreases hi - j,
    {
        assert(s@.subrange(j as int, hi as int).drop_first() =~= s@.subrange(j + 1, hi as int));
        j = j + 1;
    }
    j
}

/// The bounds of `s[lo..hi]` without white space at either end.
fn trim_range(s: &Vec<char>, lo: usize, hi: usize) -> (r: (usize, usize))
    requires
        lo <= hi <= s@.len(),
    ensures
        lo <= r.0 <= r.1 <= hi,
        s@.subrange(r.0 as int, r.1 as int) == trim(s@.subrange(lo as int, hi as int)),
{
    let mut a: usize = lo;
    while a < hi && white_space(s[a])
        invariant
            lo <= a <= hi <= s@.len(),
            trim_start(s@.subrange(lo as int, hi as int)) == trim_start(s@.subrange(a as int, hi as int)),
        decreases hi - a,
    {
        assert(s@.subrange(a as int, hi as int).drop_first() =~= s@.subrange(a + 1, hi as int));
        a = a + 1;
    }
    let mut b: usize = hi;
    while b > a && white_space(s[b - 1])
        invariant
            lo <= a <= b <= hi <= s@.len(),
            trim_start(s@.subrange(lo as int, hi as int)) == s@.subrange(a as int, hi as int),
            trim_end(s@.subrange(a as int, hi as int)) == trim_end(s@.subrange(a as int, b as int)),
        decreases b - a,
    {
        assert(s@.subrange(a as int, b as int).drop_last() =~= s@.subrange(a as int, b - 1));
        b = b - 1;
    }
    (a, b)
}

/// The characters of `s[lo..hi]`.
fn copy_range(s: &Vec<char>, lo: usize, hi: usize) -> (r: Vec<char>)
    requires
        lo <= hi <= s@.len(),
    ensures
        r@ == s@.subrange(lo as int, hi as int),
{
    let mut r: Vec<char> = Vec::new();
    let mut i: usize = lo;
    while i < hi
        invariant
            lo <= i <= hi <= s@.len(),
            r@ == s@.subrange(lo as int, i as int),
        decreases hi - i,
    {
        r.push(s[i]);
        assert(r@ =~= s@.subrange(lo as int, i + 1));
        i = i + 1;
    }
    r
}

/// The vertex on the line `s[p..q]`, as `read_vertex_line` says.
fn parse_vertex_line<V: TextValue>(s: &Vec<char>, p: usize, q: usize) -> (r: Result<Option<(VertexId, V)>, TgfError>)
    requires
        p <= q <= s@.len(),
    ensures
        match (r, read_vertex_line::<V>(s@.subrange(p as int, q as int))) {
            (Ok(None), Ok(None)) => true,
            (Ok(Some((id, v))), Ok(Some((n, t)))) => id == n && v.text() == t,
            (Err(e), Err(f)) => e == f,
            _ => false,
        },
{
    let ghost line = s@.subrange(p as int, q as int);
    if p == q {
        return Ok(None);
    }
    let k = find_from(s, p, q, ' ');
    if k == q {
        return Err(TgfError::MissingVertexValue);
    }
    assert(line.take(k - p) =~= s@.subrange(p as int, k as int));
    assert(line.skip(k - p + 1) =~= s@.subrange(k + 1, q as int));
    let (a, b) = trim_range(s, p, k);
    let id = match read_u32(&copy_range(s, a, b)) {
        None => {
            return Err(TgfError::InvalidId);
        },
        Some(n) => n,
    };
    let (c, d) = trim_range(s, k + 1, q);
    match V::from_text(&copy_range(s, c, d)) {
        None => Err(TgfError::InvalidValue),
        Some(v) => Ok(Some((id, v))),
    }
}

/// The edge on the line `s[p..q]`, as `read_edge_line` says.
fn parse_edge_line<E: TextValue>(s: &Vec<char>, p: usize, q: usize) -> (r: Result<Option<(VertexId, VertexId, E)>, TgfError>)
    requires
        p <= q <= s@.len(),
    ensures
        match (r, read_edge_line::<E>(s@.subrange(p as int, q as int))) {
            (Ok(None), Ok(None)) => true,
            (Ok(Some((from, to, e))), Ok(Some((a, b, t)))) => from == a && to == b && e.text() == t,
            (Err(e), Err(f)) => e == f,
            _ => false,
        },
{
    let ghost line = s@.subrange(p as int, q as int);
    if p == q {
        return Ok(None);
    }
    let k = find_from(s, p, q, ' ');
    if k == q {
        return Err(TgfError::MissingEdgeTarget);
    }
    assert(line.take(k - p) =~= s@.subrange(p as int, k as int));
    assert(line.skip(k - p + 1) =~= s@.subrange(k + 1, q as int));
    let ghost suffix = s@.subrange(k + 1, q as int);
    let m = find_from(s, k + 1, q, ' ');
    if m == q {
        return Err(TgfError::MissingEdgeValue);
    }
    assert(suffix.take(m - k - 1) =~= s@.subrange(k + 1, m as int));
    assert(suffix.skip(m - k) =~= s@.subrange(m + 1, q as int));
    let (a, b) = trim_range(s, p, k);
    let from = match read_u32(&copy_range(s, a, b)) {
        None => {
            return Err(TgfError::InvalidId);
        },
        Some(n) => n,
    };
    let (c, d) = trim_range(s, k + 1, m);
    let to = match read_u32(&copy_range(s, c, d)) {
        None => {
            return Err(TgfError::InvalidId);
        },
        Some(n) => n,
    };
    let (x, y) = trim_range(s, m + 1, q);
    match E::from_text(&copy_range(s, x, y)) {
        None => Err(TgfError::InvalidValue),
        Some(e) => Ok(Some((from, to, e))),
    }
}

/// The bounds of the first line of `s[pos..hi]` without its end of line, and
/// where the next line starts.
fn line_bounds(s: &Vec<char>, pos: usize, hi: usize) -> (r: (usize, usize))
    requires
        pos < hi <= s@.len(),
    ensures
        pos <= r.0 <= hi,
        pos < r.1 <= hi,
        s@.subrange(pos as int, r.0 as int) == first_line(s@.subrange(pos as int, hi as int)),
        s@.subrange(r.1 as int, hi as int) == after_first_line(s@.subrange(pos as int, hi as int)),
{
    let ghost rest = s@.subrange(pos as int, hi as int);
    let j = find_from(s, pos, hi, '\n');
    assert(rest.take(j - pos) =~= s@.subrange(pos as int, j as int));
    let q = if j > pos && s[j - 1] == '\r' { j - 1 } else { j };
    assert(s@.subrange(pos as int, q as int) =~= first_line(rest));
    let next = if j < hi { j + 1 } else { hi };
    assert(s@.subrange(next as int, hi as int) =~= after_first_line(rest));
    (q, next)
}

/// Adds the vertices of the section `s[lo..hi]` to `g`, each with an empty
/// row, as `read_vertex_section` says.
fn read_vertices<V: TextValue, E: TextValue>(s: &Vec<char>, lo: usize, hi: usize, g: &mut Graph<V, E>) -> (r: Result<(), TgfError>)
    requires
        lo <= hi <= s@.len(),
        old(g).wf(),
        edge_texts(old(g)) == empty_rows(vertex_texts(old(g))),
    ensures
        match (r, read_vertex_section::<V>(s@.subrange(lo as int, hi as int), vertex_texts(old(g)))) {
            (Ok(()), Ok(vs)) => final(g).wf() && vertex_texts(final(g)) == vs && edge_texts(final(g)) == empty_rows(vs),
            (Err(e), Err(f)) => e == f,
            _ => false,
        },
{
    let mut pos: usize = lo;
    while pos < hi
        invariant
            lo <= pos <= hi <= s@.len(),
            g.wf(),
            edge_texts(g) == empty_rows(vertex_texts(g)),
            read_vertex_section::<V>(s@.subrange(lo as int, hi as int), vertex_texts(old(g)))
                == read_vertex_section::<V>(s@.subrange(pos as int, hi as int), vertex_texts(g)),
        decreases hi - pos,
    {
        let (q, next) = line_bounds(s, pos, hi);
        match parse_vertex_line::<V>(s, pos, q) {
            Err(e) => {
                return Err(e);
            },
            Ok(None) => {},
            Ok(Some((id, v))) => {
                let ghost before = *g;
                let ghost t = v.text();
                g.insert_node(id, v);
                assert(vertex_texts(g) =~= vertex_texts(&before).insert(id, t));
                assert forall|k: VertexId| #[trigger] edge_texts(g).contains_key(k) implies edge_texts(g)[k] =~= Map::<VertexId, Seq<char>>::empty() by {
                    if k != id || before.edge_map().contains_key(id) {
                        assert(edge_texts(&before)[k] == Map::<VertexId, Seq<char>>::empty());
                        assert(before.edge_map()[k].dom() =~= Set::<VertexId>::empty()) by {
                            assert forall|x: VertexId| !before.edge_map()[k].contains_key(x) by {
                                if before.edge_map()[k].contains_key(x) {
                                    assert(edge_texts(&before)[k].contains_key(x));
                                }
                            }
                        }
                    }
                }
                assert(edge_texts(g) =~= empty_rows(vertex_texts(g)));
            },
        }
        pos = next;
    }
    Ok(())
}

/// Sets the edges of the section `s[lo..hi]` in `g`, as `read_edge_section` says.
fn read_edges<V: TextValue, E: TextValue>(s: &Vec<char>, lo: usize, hi: usize, g: &mut Graph<V, E>) -> (r: Result<(), TgfError>)
    requires
        lo <= hi <= s@.len(),
        old(g).wf(),
    ensures
        match (r, read_edge_section::<E>(s@.subrange(lo as int, hi as int), edge_texts(old(g)))) {
            (Ok(()), Ok(es)) => final(g).wf() && vertex_texts(final(g)) == vertex_texts(old(g)) && edge_texts(final(g)) == es,
            (Err(e), Err(f)) => e == f,
            _ => false,
        },
{
    let mut pos: usize = lo;
    while pos < hi
        invariant
            lo <= pos <= hi <= s@.len(),
            g.wf(),
            vertex_texts(g) == vertex_texts(old(g)),
            read_edge_section::<E>(s@.subrange(lo as int, hi as int), edge_texts(old(g)))
                == read_edge_section::<E>(s@.subrange(pos as int, hi as int), edge_texts(g)),
        decreases hi - pos,
    {
        let (q, next) = line_bounds(s, pos, hi);
        match parse_edge_line::<E>(s, pos, q) {
            Err(e) => {
                return Err(e);
            },
            Ok(None) => {},
            Ok(Some((from, to, e))) => {
                let ghost before = *g;
                let ghost t = e.text();
                g.insert_edge(OrientedEdge(from, to), e);
                proof {
                    if before.edge_map().contains_key(from) {
                        assert(edge_texts(g)[from] =~= edge_texts(&before)[from].insert(to, t));
                    }
                    assert(edge_texts(g) =~= with_edge(edge_texts(&before), from, to, t));
                }
            },
        }
        pos = next;
    }
    Ok(())
}

/// The line of a vertex.
pub open spec fn vertex_line(id: VertexId, t: Seq<char>) -> Seq<char> {
    decimal(id as nat) + seq![' '] + t + seq!['\n']
}

/// The line of an edge.
pub open spec fn edge_line(from: VertexId, to: VertexId, t: Seq<char>) -> Seq<char> {
    decimal(from as nat) + seq![' '] + decimal(to as nat) + seq![' '] + t + seq!['\n']
}

/// The lines of the vertices `order`, in that order.
pub open spec fn vertex_block(vs: Map<VertexId, Seq<char>>, order: Seq<VertexId>) -> Seq<char>
    decreases order.len(),
{
    if order.len() == 0 {
        Seq::empty()
    } else {
        vertex_block(vs, order.drop_last()) + vertex_line(order.last(), vs[order.last()])
    }
}

/// The lines of the edges `order`, in that order.
pub open spec fn edge_block(es: Map<VertexId, Map<VertexId, Seq<char>>>, order: Seq<(VertexId, VertexId)>) -> Seq<char>
    decreases order.len(),
{
    if order.len() == 0 {
        Seq::empty()
    } else {
        edge_block(es, order.drop_last()) + edge_line(order.last().0, order.last().1, es[order.last().0][order.last().1])
    }
}

/// The `(from, to)` pairs of the edges.
pub open spec fn edge_slots(es: Map<VertexId, Map<VertexId, Seq<char>>>) -> Set<(VertexId, VertexId)> {
    Set::new(|p: (VertexId, VertexId)| es.contains_key(p.0) && es[p.0].contains_key(p.1))
}

/// The text of a graph whose vertices are written in `vertex_order` and
/// whose edges in `edge_order`.
pub open spec fn tgf_text(
    vs: Map<VertexId, Seq<char>>,
    es: Map<VertexId, Map<VertexId, Seq<char>>>,
    vertex_order: Seq<VertexId>,
    edge_order: Seq<(VertexId, VertexId)>,
) -> Seq<char> {
    vertex_block(vs, vertex_order) + seq!['#', '\n'] + edge_block(es, edge_order)
}

/// Whether `order` lists each element of `items` once and nothing else.
pub open spec fn lists_once<A>(order: Seq<A>, items: Set<A>) -> bool {
    order.no_duplicates() && order.to_set() == items
}

impl<V: TextValue, E: TextValue> Graph<V, E> {
    /// The graph as text: a line per vertex, a `#` line, then a line per
    /// edge, each part in the order of the graph's stores.
    pub fn to_tgf(&self) -> (r: String)
        ensures
            exists|vertex_order: Seq<VertexId>, edge_order: Seq<(VertexId, VertexId)>|
                lists_once(vertex_order, self.vertex_map().dom())
                && lists_once(edge_order, edge_slots(edge_texts(self)))
                && r@ == tgf_text(vertex_texts(self), edge_texts(self), vertex_order, edge_order),
    {
        let ghost vs = vertex_texts(self);
        let ghost es = edge_texts(self);
        proof {
            self.lemma_views();
        }
        let mut out: Vec<char> = Vec::new();
        let ids = key_list(&self.vertices);
        for i in 0..ids.len()
            invariant
                vs == vertex_texts(self),
                self.vertex_map() == self.vertices@,
                ids@.to_set() == self.vertex_map().dom(),
                out@ == vertex_block(vs, ids@.take(i as int)),
        {
            let id = ids[i];
            assert(ids@.to_set().contains(ids@[i as int]));
            match self.vertices.get(&id) {
                None => {
                    assert(false);
                },
                Some(v) => {
                    push_decimal(id, &mut out);
                    out.push(' ');
                    let mut t = v.to_text();
                    out.append(&mut t);
                    out.push('\n');
                },
            }
            assert(ids@.take(i + 1).drop_last() =~= ids@.take(i as int));
            assert(out@ =~= vertex_block(vs, ids@.take(i + 1)));
        }
        assert(ids@.take(ids@.len() as int) =~= ids@);
        out.push('#');
        out.push('\n');
        let ghost head = out@;
        let ghost mut order: Seq<(VertexId, VertexId)> = Seq::empty();
        let sources = key_list(&self.adj_list);
        for i in 0..sources.len()
            invariant
                es == edge_texts(self),
                self.edge_map() == self.adj_list@.map_values(|row: HashMap<VertexId, E>| row@),
                sources@.to_set() == self.edge_map().dom(),
                sources@.no_duplicates(),
                out@ == head + edge_block(es, order),
                order.no_duplicates(),
                order.to_set() == Set::new(|p: (VertexId, VertexId)| edge_slots(es).contains(p) && sources@.take(i as int).contains(p.0)),
        {
            let from = sources[i];
            assert(sources@.to_set().contains(sources@[i as int]));
            let ghost done = order;
            match self.adj_list.get(&from) {
                None => {
                    assert(false);
                },
                Some(row) => {
                    let dests = key_list(row);
                    assert forall|x: int| 0 <= x < done.len() implies (#[trigger] done[x]).0 != from by {
                        assert(done.to_set().contains(done[x]));
                        if done[x].0 == from {
                            let y = choose|y: int| 0 <= y < i && sources@.take(i as int)[y] == from;
                            assert(sources@[y] == sources@[i as int]);
                        }
                    }
                    for j in 0..dests.len()
                        invariant
                            es == edge_texts(self),
                            es.contains_key(from),
                            es[from] == row@.map_values(|e: E| e.text()),
                            dests@.to_set() == row@.dom(),
                            dests@.no_duplicates(),
                            out@ == head + edge_block(es, order),
                            order.no_duplicates(),
                            order.len() == done.len() + j,
                            order.take(done.len() as int) == done,
                            forall|x: int| done.len() <= x < order.len() ==> #[trigger] order[x] == (from, dests@[x - done.len()]),
                            forall|x: int| 0 <= x < done.len() ==> (#[trigger] done[x]).0 != from,
                            done.no_duplicates(),
                            done.to_set() == Set::new(|p: (VertexId, VertexId)| edge_slots(es).contains(p) && sources@.take(i as int).contains(p.0)),
                    {
                        let to = dests[j];
                        assert(dests@.to_set().contains(dests@[j as int]));
                        match row.get(&to) {
                            None => {
                                assert(false);
                            },
                            Some(e) => {
                                push_decimal(from, &mut out);
                                out.push(' ');
                                push_decimal(to, &mut out);
                                out.push(' ');
                                let mut t = e.to_text();
                                out.append(&mut t);
                                out.push('\n');
                                proof {
                                    let prev = order;
                                    order = order.push((from, to));
                                    assert(order.drop_last() =~= prev);
                                    assert(out@ =~= head + edge_block(es, order));
                                    assert(order.take(done.len() as int) =~= done);
                                    assert forall|x: int, y: int| 0 <= x < y < order.len() implies order[x] != order[y] by {
                                        if y == order.len() - 1 && x >= done.len() {
                                            assert(dests@[x - done.len()] != dests@[j as int]);
                                        } else if y == order.len() - 1 {
                                            assert(order[x] == done[x]);
                                        } else {
                                            assert(order[x] == prev[x] && order[y] == prev[y]);
                                        }
                                    }
                                }
                            },
                        }
                    }
                    proof {
                        assert forall|p: (VertexId, VertexId)| order.to_set().contains(p) == (edge_slots(es).contains(p) && sources@.take(i + 1).contains(p.0)) by {
                            assert(sources@.take(i + 1) =~= sources@.take(i as int).push(from));
                            if order.to_set().contains(p) {
                                let x = choose|x: int| 0 <= x < order.len() && order[x] == p;
                                if x < done.len() {
                                    assert(done[x] == order[x]);
                                    assert(done.to_set().contains(p));
                                } else {
                                    assert(dests@.to_set().contains(dests@[x - done.len()]));
                                    assert(sources@.take(i + 1)[i as int] == from);
                                    assert(es[from].contains_key(p.1));
                                }
                            }
                            if edge_slots(es).contains(p) && sources@.take(i + 1).contains(p.0) {
                                if p.0 == from {
                                    assert(dests@.to_set().contains(p.1));
                                    let y = choose|y: int| 0 <= y < dests@.len() && dests@[y] == p.1;
                                    assert(order[done.len() + y] == p);
                                } else {
                                    assert(sources@.take(i as int).contains(p.0));
                                    assert(done.to_set().contains(p));
                                    let x = choose|x: int| 0 <= x < done.len() && done[x] == p;
                                    assert(order[x] == p);
                                }
                            }
                        }
                        assert(order.to_set() =~= Set::new(|p: (VertexId, VertexId)| edge_slots(es).contains(p) && sources@.take(i + 1).contains(p.0)));
                    }
                },
            }
        }
        proof {
            assert(sources@.take(sources@.len() as int) =~= sources@);
            assert forall|p: (VertexId, VertexId)| edge_slots(es).contains(p) implies sources@.contains(p.0) by {
                assert(sources@.to_set().contains(p.0));
            }
            assert(order.to_set() =~= edge_slots(es));
            assert(out@ =~= tgf_text(vs, es, ids@, order));
        }
        string_of_chars(&out)
    }


    /// Reads a graph from its text: vertex lines `<id> <value>`, a `#`, then
    /// edge lines `<from> <to> <value>`. Each section is trimmed, empty lines
    /// are passed over, a later line for the same vertex or edge wins, and an
    /// edge out of an id that is not a vertex is dropped.
    pub fn from_tgf(text: &str) -> (r: Result<Graph<V, E>, TgfError>)
        ensures
            match (r, read_graph::<V, E>(text@)) {
                (Ok(g), Ok((vs, es))) => g.wf() && vertex_texts(&g) == vs && edge_texts(&g) == es,
                (Err(e), Err(f)) => e == f,
                _ => false,
            },
    {
        let s = chars_of(text);
        let n = s.len();
        let k = find_from(&s, 0, n, '#');
        assert(s@.subrange(0, n as int) =~= s@);
        if k == n {
            return Err(TgfError::MissingSeparator);
        }
        assert(s@.take(k as int) =~= s@.subrange(0, k as int));
        assert(s@.skip(k + 1) =~= s@.subrange(k + 1, n as int));
        let mut g: Graph<V, E> = Graph::new();
        assert(vertex_texts(&g) =~= Map::<VertexId, Seq<char>>::empty());
        assert(edge_texts(&g) =~= empty_rows(vertex_texts(&g)));
        let (a, b) = trim_range(&s, 0, k);
        match read_vertices(&s, a, b, &mut g) {
            Err(e) => {
                return Err(e);
            },
            Ok(()) => {},
        }
        let (c, d) = trim_range(&s, k + 1, n);
        match read_edges(&s, c, d, &mut g) {
            Err(e) => Err(e),
            Ok(()) => Ok(g),
        }
    }
}

} // verus!
