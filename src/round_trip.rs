use vstd::prelude::*;

use crate::digraph::{Graph, VertexId};
use crate::text::{all_digits, decimal, digit_char, digit_value, digits_value, is_digit, parse_u32, unsigned_part};
use crate::text::TextValue;
use crate::tgf::{
    TgfError, edge_slots, edge_texts, empty_rows, lists_once, read_graph, tgf_text, vertex_texts,
    after_first_line, edge_block, edge_line, first_line, is_white_space, read_edge_line, read_edge_section,
    read_vertex_line, read_vertex_section, span_until, split_once, trim, trim_end, trim_start,
    vertex_block, vertex_line,
};

verus! {

/// A decimal numeral is a nonempty run of digits that reads back as its number.
pub proof fn lemma_decimal_reads_back(n: nat)
    requires
        n <= u32::MAX,
    ensures
        decimal(n).len() > 0,
        all_digits(decimal(n)),
        digits_value(decimal(n)) == n,
        parse_u32(decimal(n)) == Some(n as u32),
{
    lemma_decimal_digits(n);
    assert(unsigned_part(decimal(n)) == decimal(n));
}

proof fn lemma_decimal_digits(n: nat)
    ensures
        decimal(n).len() > 0,
        all_digits(decimal(n)),
        digits_value(decimal(n)) == n,
    decreases n,
{
    let d = (n % 10) as nat;
    assert(is_digit(digit_char(d)) && digit_value(digit_char(d)) == d);
    if n >= 10 {
        lemma_decimal_digits(n / 10);
        let s = decimal(n);
        assert(s.drop_last() == decimal(n / 10));
        assert(forall|i: int| 0 <= i < s.len() - 1 ==> s[i] == decimal(n / 10)[i]);
        assert(s.last() == digit_char(d));
        assert((n / 10) * 10 + n % 10 == n) by (nonlinear_arith);
        assert(digits_value(s) == digits_value(s.drop_last()) * 10 + digit_value(s.last()));
    } else {
        assert(n % 10 == n);
        let s = decimal(n);
        assert(s.drop_last() =~= Seq::<char>::empty());
        assert(digits_value(s) == digits_value(s.drop_last()) * 10 + digit_value(s.last()));
    }
}

/// Where `s` has no `c` before `k`, and `k` is its end or a `c`, the span
/// before the first `c` is `k`.
pub proof fn lemma_span_at(s: Seq<char>, c: char, k: int)
    requires
        0 <= k <= s.len(),
        forall|j: int| 0 <= j < k ==> s[j] != c,
        k == s.len() || s[k] == c,
    ensures
        span_until(s, c) == k,
    decreases k,
{
    if k > 0 {
        lemma_span_at(s.drop_first(), c, k - 1);
    }
}

/// Digits are neither white space nor any of the characters that lay out the text.
pub proof fn lemma_digit_is_plain(c: char)
    requires
        is_digit(c),
    ensures
        !is_white_space(c),
        c != ' ',
        c != '\n',
        c != '#',
        c != '\r',
        c != '+',
{
}

/// Whether a value's text keeps its shape on a line of the text format: it is
/// not empty, has no white space at its ends and no line break.
pub open spec fn fits_line(t: Seq<char>) -> bool {
    t.len() > 0 && !is_white_space(t[0]) && !is_white_space(t.last()) && !t.contains('\n')
}

/// Text with no white space at its ends is its own trim.
pub proof fn lemma_trim_plain(s: Seq<char>)
    requires
        s.len() > 0,
        !is_white_space(s[0]),
        !is_white_space(s.last()),
    ensures
        trim(s) == s,
{
    assert(trim_start(s) == s);
    assert(trim_end(s) == s);
}

/// The vertex lines, first line first.
pub proof fn lemma_vertex_block_front(vs: Map<VertexId, Seq<char>>, order: Seq<VertexId>)
    requires
        order.len() > 0,
    ensures
        vertex_block(vs, order) == vertex_line(order[0], vs[order[0]]) + vertex_block(vs, order.drop_first()),
    decreases order.len(),
{
    if order.len() == 1 {
        assert(order.drop_first() =~= Seq::<VertexId>::empty());
        assert(order.drop_last() =~= Seq::<VertexId>::empty());
        assert(vertex_block(vs, order.drop_last()) == Seq::<char>::empty());
        assert(vertex_block(vs, order.drop_first()) == Seq::<char>::empty());
        assert(vertex_block(vs, order) =~= vertex_line(order[0], vs[order[0]]));
    } else {
        lemma_vertex_block_front(vs, order.drop_last());
        assert(order.drop_last().drop_first() =~= order.drop_first().drop_last());
        assert(vertex_block(vs, order) =~= vertex_line(order[0], vs[order[0]]) + vertex_block(vs, order.drop_first()));
    }
}

/// The edge lines, first line first.
pub proof fn lemma_edge_block_front(es: Map<VertexId, Map<VertexId, Seq<char>>>, order: Seq<(VertexId, VertexId)>)
    requires
        order.len() > 0,
    ensures
        edge_block(es, order) == edge_line(order[0].0, order[0].1, es[order[0].0][order[0].1]) + edge_block(es, order.drop_first()),
    decreases order.len(),
{
    if order.len() == 1 {
        assert(order.drop_first() =~= Seq::<(VertexId, VertexId)>::empty());
        assert(order.drop_last() =~= Seq::<(VertexId, VertexId)>::empty());
        assert(edge_block(es, order.drop_last()) == Seq::<char>::empty());
        assert(edge_block(es, order.drop_first()) == Seq::<char>::empty());
        assert(edge_block(es, order) =~= edge_line(order[0].0, order[0].1, es[order[0].0][order[0].1]));
    } else {
        lemma_edge_block_front(es, order.drop_last());
        assert(order.drop_last().drop_first() =~= order.drop_first().drop_last());
        assert(edge_block(es, order) =~= edge_line(order[0].0, order[0].1, es[order[0].0][order[0].1]) + edge_block(es, order.drop_first()));
    }
}

/// The first line of `content`, a line break and `more`, is `content`, and
/// `more` follows it; without a line break, `content` is all there is.
pub proof fn lemma_line_split(content: Seq<char>, more: Seq<char>)
    requires
        content.len() > 0,
        !content.contains('\n'),
        content.last() != '\r',
    ensures
        first_line(content) == content,
        after_first_line(content) == Seq::<char>::empty(),
        first_line(content + seq!['\n'] + more) == content,
        after_first_line(content + seq!['\n'] + more) == more,
{
    assert forall|j: int| 0 <= j < content.len() implies content[j] != '\n' by {
        if content[j] == '\n' {
            assert(content.contains('\n'));
        }
    }
    lemma_span_at(content, '\n', content.len() as int);
    assert(content.take(content.len() as int) =~= content);
    let s = content + seq!['\n'] + more;
    lemma_span_at(s, '\n', content.len() as int);
    assert(s.take(content.len() as int) =~= content);
    assert(s.skip(content.len() as int + 1) =~= more);
}

/// A vertex line reads as its vertex.
pub proof fn lemma_read_vertex_line<V: TextValue>(id: VertexId, t: Seq<char>)
    requires
        fits_line(t),
        V::read(t) == Some(t),
    ensures
        read_vertex_line::<V>(decimal(id as nat) + seq![' '] + t) == Ok::<Option<(VertexId, Seq<char>)>, TgfError>(Some((id, t))),
{
    let d = decimal(id as nat);
    lemma_decimal_reads_back(id as nat);
    let content = d + seq![' '] + t;
    assert forall|j: int| 0 <= j < d.len() implies content[j] != ' ' by {
        assert(is_digit(d[j]));
    }
    lemma_span_at(content, ' ', d.len() as int);
    assert(content.take(d.len() as int) =~= d);
    assert(content.skip(d.len() as int + 1) =~= t);
    assert(split_once(content, ' ') == Some((d, t)));
    lemma_digit_is_plain(d[0]);
    lemma_digit_is_plain(d.last());
    lemma_trim_plain(d);
    lemma_trim_plain(t);
}

/// An edge line reads as its edge.
pub proof fn lemma_read_edge_line<E: TextValue>(from: VertexId, to: VertexId, t: Seq<char>)
    requires
        fits_line(t),
        E::read(t) == Some(t),
    ensures
        read_edge_line::<E>(decimal(from as nat) + seq![' '] + decimal(to as nat) + seq![' '] + t)
            == Ok::<Option<(VertexId, VertexId, Seq<char>)>, TgfError>(Some((from, to, t))),
{
    let d1 = decimal(from as nat);
    let d2 = decimal(to as nat);
    lemma_decimal_reads_back(from as nat);
    lemma_decimal_reads_back(to as nat);
    let content = d1 + seq![' '] + d2 + seq![' '] + t;
    let suffix = d2 + seq![' '] + t;
    assert forall|j: int| 0 <= j < d1.len() implies content[j] != ' ' by {
        assert(is_digit(d1[j]));
    }
    lemma_span_at(content, ' ', d1.len() as int);
    assert(content.take(d1.len() as int) =~= d1);
    assert(content.skip(d1.len() as int + 1) =~= suffix);
    assert forall|j: int| 0 <= j < d2.len() implies suffix[j] != ' ' by {
        assert(is_digit(d2[j]));
    }
    lemma_span_at(suffix, ' ', d2.len() as int);
    assert(suffix.take(d2.len() as int) =~= d2);
    assert(suffix.skip(d2.len() as int + 1) =~= t);
    lemma_digit_is_plain(d1[0]);
    lemma_digit_is_plain(d1.last());
    lemma_digit_is_plain(d2[0]);
    lemma_digit_is_plain(d2.last());
    lemma_trim_plain(d1);
    lemma_trim_plain(d2);
    lemma_trim_plain(t);
}

/// A line's content: a numeral and a value, with only spaces between them.
proof fn lemma_content_plain(d: Seq<char>, mid: Seq<char>, t: Seq<char>)
    requires
        d.len() > 0,
        all_digits(d),
        forall|j: int| 0 <= j < mid.len() ==> mid[j] == ' ' || is_digit(mid[j]),
        fits_line(t),
    ensures
        !(d + mid + t).contains('\n'),
        (d + mid + t).last() != '\r',
        (d + mid + t).len() > 0,
        !is_white_space((d + mid + t)[0]),
{
    let c = d + mid + t;
    assert forall|j: int| 0 <= j < c.len() implies c[j] != '\n' by {
        if j < d.len() {
            assert(is_digit(d[j]));
        } else if j < d.len() + mid.len() {
            assert(mid[j - d.len()] == c[j]);
        } else {
            assert(t[j - d.len() - mid.len()] == c[j]);
            if c[j] == '\n' {
                assert(t.contains('\n'));
            }
        }
    }
    assert(c.last() == t.last());
    assert(is_digit(d[0]));
}

/// The vertex lines of `order`, the last line break left off, add each
/// listed vertex with its text to what was read before.
pub proof fn lemma_read_vertex_lines<V: TextValue>(vs: Map<VertexId, Seq<char>>, order: Seq<VertexId>, acc: Map<VertexId, Seq<char>>)
    requires
        order.len() > 0,
        forall|i: int| 0 <= i < order.len() ==> vs.contains_key(#[trigger] order[i]) && fits_line(vs[order[i]])
            && V::read(vs[order[i]]) == Some(vs[order[i]]),
    ensures
        read_vertex_section::<V>(vertex_block(vs, order).drop_last(), acc) matches Ok(m)
            && m.dom() == acc.dom() + order.to_set()
            && (forall|k: VertexId| order.contains(k) ==> m[k] == vs[k])
            && (forall|k: VertexId| acc.contains_key(k) && !order.contains(k) ==> m[k] == acc[k]),
    decreases order.len(),
{
    let id = order[0];
    let t = vs[id];
    let d = decimal(id as nat);
    let content = d + seq![' '] + t;
    let rest = order.drop_first();
    lemma_vertex_block_front(vs, order);
    lemma_decimal_reads_back(id as nat);
    lemma_content_plain(d, seq![' '], t);
    lemma_read_vertex_line::<V>(id, t);
    let next = acc.insert(id, t);
    let s = vertex_block(vs, order).drop_last();
    if rest.len() == 0 {
        assert(s =~= content);
        lemma_line_split(content, Seq::empty());
        assert(read_vertex_section::<V>(s, acc) == read_vertex_section::<V>(Seq::empty(), next));
        assert(order =~= seq![id]);
        assert(next.dom() =~= acc.dom() + order.to_set());
    } else {
        lemma_vertex_block_front(vs, rest);
        let more = vertex_block(vs, rest).drop_last();
        assert(s =~= content + seq!['\n'] + more);
        lemma_line_split(content, more);
        assert forall|i: int| 0 <= i < rest.len() implies vs.contains_key(#[trigger] rest[i]) && fits_line(vs[rest[i]])
            && V::read(vs[rest[i]]) == Some(vs[rest[i]]) by {
            assert(rest[i] == order[i + 1]);
        }
        lemma_read_vertex_lines::<V>(vs, rest, next);
        assert(read_vertex_section::<V>(s, acc) == read_vertex_section::<V>(more, next));
        let m = read_vertex_section::<V>(more, next)->Ok_0;
        assert forall|k: VertexId| order.contains(k) <==> (k == id || rest.contains(k)) by {
            if order.contains(k) && k != id {
                let i = choose|i: int| 0 <= i < order.len() && order[i] == k;
                assert(rest[i - 1] == k);
            }
            if rest.contains(k) {
                let i = choose|i: int| 0 <= i < rest.len() && rest[i] == k;
                assert(order[i + 1] == k);
            }
            if k == id {
                assert(order[0] == k);
            }
        }
        assert(m.dom() =~= acc.dom() + order.to_set());
    }
}

/// The destinations that `order` lists for the source `a`.
pub open spec fn listed_targets(order: Seq<(VertexId, VertexId)>, a: VertexId) -> Set<VertexId> {
    Set::new(|b: VertexId| order.contains((a, b)))
}

/// The edge lines of `order`, the last line break left off, set each listed
/// edge with its text in the rows read before.
pub proof fn lemma_read_edge_lines<E: TextValue>(
    es: Map<VertexId, Map<VertexId, Seq<char>>>,
    order: Seq<(VertexId, VertexId)>,
    acc: Map<VertexId, Map<VertexId, Seq<char>>>,
)
    requires
        order.len() > 0,
        forall|i: int| 0 <= i < order.len() ==> {
            let (a, b) = #[trigger] order[i];
            &&& acc.contains_key(a)
            &&& es.contains_key(a)
            &&& es[a].contains_key(b)
            &&& fits_line(es[a][b])
            &&& E::read(es[a][b]) == Some(es[a][b])
        },
    ensures
        read_edge_section::<E>(edge_block(es, order).drop_last(), acc) matches Ok(m)
            && m.dom() == acc.dom()
            && (forall|a: VertexId| #[trigger] acc.contains_key(a) ==> m[a].dom() == acc[a].dom() + listed_targets(order, a))
            && (forall|a: VertexId, b: VertexId| order.contains((a, b)) ==> m[a][b] == es[a][b])
            && (forall|a: VertexId, b: VertexId| acc.contains_key(a) && acc[a].contains_key(b) && !order.contains((a, b)) ==> m[a][b] == acc[a][b]),
    decreases order.len(),
{
    let (a, b) = order[0];
    let t = es[a][b];
    let d1 = decimal(a as nat);
    let d2 = decimal(b as nat);
    let mid = seq![' '] + d2 + seq![' '];
    let content = d1 + seq![' '] + d2 + seq![' '] + t;
    assert(content =~= d1 + mid + t);
    let rest = order.drop_first();
    lemma_edge_block_front(es, order);
    lemma_decimal_reads_back(a as nat);
    lemma_decimal_reads_back(b as nat);
    assert forall|j: int| 0 <= j < mid.len() implies mid[j] == ' ' || is_digit(mid[j]) by {
        if 0 < j < mid.len() - 1 {
            assert(mid[j] == d2[j - 1]);
        }
    }
    lemma_content_plain(d1, mid, t);
    lemma_read_edge_line::<E>(a, b, t);
    let next = acc.insert(a, acc[a].insert(b, t));
    let s = edge_block(es, order).drop_last();
    assert forall|k: (VertexId, VertexId)| order.contains(k) <==> (k == (a, b) || rest.contains(k)) by {
        if order.contains(k) && k != (a, b) {
            let i = choose|i: int| 0 <= i < order.len() && order[i] == k;
            assert(rest[i - 1] == k);
        }
        if rest.contains(k) {
            let i = choose|i: int| 0 <= i < rest.len() && rest[i] == k;
            assert(order[i + 1] == k);
        }
        if k == (a, b) {
            assert(order[0] == k);
        }
    }
    if rest.len() == 0 {
        assert(s =~= content);
        lemma_line_split(content, Seq::empty());
        assert(read_edge_section::<E>(s, acc) == read_edge_section::<E>(Seq::empty(), next));
        assert(next.dom() =~= acc.dom());
        assert forall|x: VertexId| #[trigger] acc.contains_key(x) implies next[x].dom() == acc[x].dom() + listed_targets(order, x) by {
            assert(next[x].dom() =~= acc[x].dom() + listed_targets(order, x));
        }
    } else {
        lemma_edge_block_front(es, rest);
        let more = edge_block(es, rest).drop_last();
        assert(s =~= content + seq!['\n'] + more);
        lemma_line_split(content, more);
        assert forall|i: int| 0 <= i < rest.len() implies {
            let (x, y) = #[trigger] rest[i];
            &&& next.contains_key(x)
            &&& es.contains_key(x)
            &&& es[x].contains_key(y)
            &&& fits_line(es[x][y])
            &&& E::read(es[x][y]) == Some(es[x][y])
        } by {
            assert(rest[i] == order[i + 1]);
        }
        lemma_read_edge_lines::<E>(es, rest, next);
        assert(read_edge_section::<E>(s, acc) == read_edge_section::<E>(more, next));
        let m = read_edge_section::<E>(more, next)->Ok_0;
        assert(next.dom() =~= acc.dom());
        assert forall|x: VertexId| #[trigger] acc.contains_key(x) implies m[x].dom() == acc[x].dom() + listed_targets(order, x) by {
            assert(next.contains_key(x));
            assert(m[x].dom() =~= acc[x].dom() + listed_targets(order, x));
        }
        assert forall|x: VertexId, y: VertexId| order.contains((x, y)) implies m[x][y] == es[x][y] by {
            if !rest.contains((x, y)) {
                assert((x, y) == (a, b));
            }
        }
    }
}

/// The vertex lines hold no `#` where no vertex text does.
proof fn lemma_vertex_block_no_hash(vs: Map<VertexId, Seq<char>>, order: Seq<VertexId>)
    requires
        forall|i: int| 0 <= i < order.len() ==> !vs[#[trigger] order[i]].contains('#'),
    ensures
        !vertex_block(vs, order).contains('#'),
    decreases order.len(),
{
    if order.len() > 0 {
        let init = order.drop_last();
        assert forall|i: int| 0 <= i < init.len() implies !vs[#[trigger] init[i]].contains('#') by {
            assert(init[i] == order[i]);
        }
        lemma_vertex_block_no_hash(vs, init);
        let id = order.last();
        let d = decimal(id as nat);
        let t = vs[id];
        lemma_decimal_reads_back(id as nat);
        let b = vertex_block(vs, order);
        let head = vertex_block(vs, init);
        assert(b == head + vertex_line(id, t));
        assert forall|j: int| 0 <= j < b.len() implies b[j] != '#' by {
            if j < head.len() {
                assert(b[j] == head[j]);
                if head[j] == '#' {
                    assert(head.contains('#'));
                }
            } else if j < head.len() + d.len() {
                assert(is_digit(d[j - head.len()]));
            } else if head.len() + d.len() + 1 <= j < b.len() - 1 {
                assert(b[j] == t[j - head.len() - d.len() - 1]);
                if b[j] == '#' {
                    assert(t.contains('#'));
                }
            }
        }
    }
}

/// Trimming a nonempty run of vertex lines takes off its last line break alone.
proof fn lemma_trim_vertex_block(vs: Map<VertexId, Seq<char>>, order: Seq<VertexId>)
    requires
        order.len() > 0,
        forall|i: int| 0 <= i < order.len() ==> fits_line(vs[#[trigger] order[i]]),
    ensures
        trim(vertex_block(vs, order)) == vertex_block(vs, order).drop_last(),
{
    let b = vertex_block(vs, order);
    lemma_vertex_block_front(vs, order);
    lemma_decimal_reads_back(order[0] as nat);
    lemma_digit_is_plain(b[0]);
    let t = vs[order.last()];
    assert(fits_line(vs[order[order.len() - 1]]));
    assert(b.last() == '\n');
    assert(b.drop_last().last() == t.last());
    assert(trim_start(b) == b);
    assert(trim_end(b) == trim_end(b.drop_last()));
    assert(trim_end(b.drop_last()) == b.drop_last());
}

/// Trimming a line break and a nonempty run of edge lines leaves the lines
/// without their last line break.
proof fn lemma_trim_edge_block(es: Map<VertexId, Map<VertexId, Seq<char>>>, order: Seq<(VertexId, VertexId)>)
    requires
        order.len() > 0,
        forall|i: int| 0 <= i < order.len() ==> fits_line(es[(#[trigger] order[i]).0][order[i].1]),
    ensures
        trim(seq!['\n'] + edge_block(es, order)) == edge_block(es, order).drop_last(),
{
    let b = edge_block(es, order);
    lemma_edge_block_front(es, order);
    lemma_decimal_reads_back(order[0].0 as nat);
    lemma_digit_is_plain(b[0]);
    let last = order.last();
    let t = es[last.0][last.1];
    assert(fits_line(es[order[order.len() - 1].0][order[order.len() - 1].1]));
    assert(b.last() == '\n');
    assert(b.drop_last().last() == t.last());
    assert((seq!['\n'] + b).drop_first() =~= b);
    assert(trim_start(seq!['\n'] + b) == trim_start(b));
    assert(trim_start(b) == b);
    assert(trim_end(b) == trim_end(b.drop_last()));
    assert(trim_end(b.drop_last()) == b.drop_last());
}

/// Reading back the text of a graph gives the same vertices, each with the
/// same value, and the same edges, each with the same value, whatever order
/// the lines were written in. Each value's text must fit on a line (not
/// empty, no white space at its ends, no line break), read back as itself,
/// and, for a vertex, hold no `#`.
pub proof fn law_tgf_round_trip<V: TextValue, E: TextValue>(
    vs: Map<VertexId, Seq<char>>,
    es: Map<VertexId, Map<VertexId, Seq<char>>>,
    vertex_order: Seq<VertexId>,
    edge_order: Seq<(VertexId, VertexId)>,
)
    requires
        es.dom() == vs.dom(),
        lists_once(vertex_order, vs.dom()),
        lists_once(edge_order, edge_slots(es)),
        forall|id: VertexId| #[trigger] vs.contains_key(id) ==> fits_line(vs[id]) && !vs[id].contains('#') && V::read(vs[id]) == Some(vs[id]),
        forall|a: VertexId, b: VertexId| es.contains_key(a) && #[trigger] es[a].contains_key(b) ==> fits_line(es[a][b]) && E::read(es[a][b]) == Some(es[a][b]),
    ensures
        read_graph::<V, E>(tgf_text(vs, es, vertex_order, edge_order)) == Ok::<_, TgfError>((vs, es)),
{
    let vb = vertex_block(vs, vertex_order);
    let eb = edge_block(es, edge_order);
    let text = tgf_text(vs, es, vertex_order, edge_order);
    assert forall|i: int| 0 <= i < vertex_order.len() implies vs.contains_key(#[trigger] vertex_order[i]) by {
        assert(vertex_order.to_set().contains(vertex_order[i]));
    }
    assert forall|i: int| 0 <= i < edge_order.len() implies {
        let (a, b) = #[trigger] edge_order[i];
        es.contains_key(a) && es[a].contains_key(b)
    } by {
        assert(edge_order.to_set().contains(edge_order[i]));
        assert(edge_slots(es).contains(edge_order[i]));
    }
    lemma_vertex_block_no_hash(vs, vertex_order);
    assert forall|j: int| 0 <= j < vb.len() implies text[j] != '#' by {
        assert(text[j] == vb[j]);
        if vb[j] == '#' {
            assert(vb.contains('#'));
        }
    }
    lemma_span_at(text, '#', vb.len() as int);
    assert(text.take(vb.len() as int) =~= vb);
    assert(text.skip(vb.len() as int + 1) =~= seq!['\n'] + eb);
    let rows = empty_rows(vs);
    let vertices = if vertex_order.len() == 0 {
        assert(vb == Seq::<char>::empty());
        assert(vs.dom() =~= Set::<VertexId>::empty());
        assert(vs =~= Map::<VertexId, Seq<char>>::empty());
        assert(read_vertex_section::<V>(trim(vb), Map::empty()) == Ok::<_, TgfError>(vs));
        vs
    } else {
        lemma_trim_vertex_block(vs, vertex_order);
        lemma_read_vertex_lines::<V>(vs, vertex_order, Map::empty());
        let m = read_vertex_section::<V>(trim(vb), Map::empty())->Ok_0;
        assert(m.dom() =~= vs.dom());
        assert(m =~= vs);
        m
    };
    assert(read_vertex_section::<V>(trim(vb), Map::empty()) == Ok::<_, TgfError>(vs));
    if edge_order.len() == 0 {
        assert(eb == Seq::<char>::empty());
        assert(seq!['\n'].drop_first() =~= Seq::<char>::empty());
        assert(seq!['\n'] + eb =~= seq!['\n']);
        assert(is_white_space(seq!['\n'][0]));
        assert(trim_start(seq!['\n']) == trim_start(Seq::<char>::empty()));
        assert(trim(seq!['\n'] + eb) == Seq::<char>::empty());
        assert forall|a: VertexId| #[trigger] es.contains_key(a) implies es[a] == Map::<VertexId, Seq<char>>::empty() by {
            assert forall|b: VertexId| !es[a].contains_key(b) by {
                if es[a].contains_key(b) {
                    assert(edge_slots(es).contains((a, b)));
                    assert(edge_order.to_set().contains((a, b)));
                }
            }
            assert(es[a] =~= Map::<VertexId, Seq<char>>::empty());
        }
        assert(rows =~= es);
    } else {
        lemma_trim_edge_block(es, edge_order);
        lemma_read_edge_lines::<E>(es, edge_order, rows);
        let m = read_edge_section::<E>(trim(seq!['\n'] + eb), rows)->Ok_0;
        assert forall|a: VertexId| #[trigger] m.contains_key(a) implies m[a] == es[a] by {
            assert(rows.contains_key(a));
            assert forall|b: VertexId| listed_targets(edge_order, a).contains(b) <==> es[a].contains_key(b) by {
                if es[a].contains_key(b) {
                    assert(edge_slots(es).contains((a, b)));
                    assert(edge_order.to_set().contains((a, b)));
                }
                if listed_targets(edge_order, a).contains(b) {
                    assert(edge_order.to_set().contains((a, b)));
                }
            }
            assert(m[a].dom() =~= es[a].dom());
            assert(m[a] =~= es[a]);
        }
        assert(m.dom() =~= es.dom());
        assert(m =~= es);
    }
}

/// Reading back what `to_tgf` wrote for a graph gives the graph's vertices
/// and edges with the same value texts, under the conditions on values of
/// `law_tgf_round_trip`.
pub proof fn law_graph_round_trip<V: TextValue, E: TextValue>(g: &Graph<V, E>, text: Seq<char>)
    requires
        g.wf(),
        exists|vertex_order: Seq<VertexId>, edge_order: Seq<(VertexId, VertexId)>|
            lists_once(vertex_order, g.vertex_map().dom())
            && lists_once(edge_order, edge_slots(edge_texts(g)))
            && text == tgf_text(vertex_texts(g), edge_texts(g), vertex_order, edge_order),
        forall|id: VertexId| #[trigger] vertex_texts(g).contains_key(id) ==> {
            let t = vertex_texts(g)[id];
            fits_line(t) && !t.contains('#') && V::read(t) == Some(t)
        },
        forall|a: VertexId, b: VertexId| edge_texts(g).contains_key(a) && #[trigger] edge_texts(g)[a].contains_key(b) ==> {
            let t = edge_texts(g)[a][b];
            fits_line(t) && E::read(t) == Some(t)
        },
    ensures
        read_graph::<V, E>(text) == Ok::<_, TgfError>((vertex_texts(g), edge_texts(g))),
{
    let (vo, eo) = choose|vertex_order: Seq<VertexId>, edge_order: Seq<(VertexId, VertexId)>|
        lists_once(vertex_order, g.vertex_map().dom())
        && lists_once(edge_order, edge_slots(edge_texts(g)))
        && text == tgf_text(vertex_texts(g), edge_texts(g), vertex_order, edge_order);
    assert(vertex_texts(g).dom() =~= g.vertex_map().dom());
    assert(edge_texts(g).dom() =~= vertex_texts(g).dom());
    law_tgf_round_trip::<V, E>(vertex_texts(g), edge_texts(g), vo, eo);
}

/// The text of a `u32` fits on a line, holds no `#` and reads back as itself.
pub proof fn lemma_u32_text_reads_back(n: u32)
    ensures
        fits_line(n.text()),
        !n.text().contains('#'),
        <u32 as TextValue>::read(n.text()) == Some(n.text()),
{
    let d = decimal(n as nat);
    lemma_decimal_reads_back(n as nat);
    lemma_digit_is_plain(d[0]);
    lemma_digit_is_plain(d.last());
    assert forall|j: int| 0 <= j < d.len() implies d[j] != '\n' && d[j] != '#' by {
        lemma_digit_is_plain(d[j]);
    }
}

} // verus!
