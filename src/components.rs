use vstd::prelude::*;
use std::ops::Range;
use red_union_find::UF;
use crate::score::{intersecting_ranges, is_intersection, lists_intersections, ordered_ranges};

verus! {

/// `red_union_find::UF`, the disjoint-set structure; what it holds is seen
/// through `uf_leaders`.
#[verifier::external_type_specification]
#[verifier::external_body]
#[verifier::reject_recursive_types(I)]
pub struct ExUF<I: Copy>(UF<I>);

/// For each index of the structure, the least index of its class.
pub uninterp spec fn uf_leaders(uf: UF<usize>) -> Seq<int>;

/// The classes of `leaders` after joining the classes of `i` and `j`; the
/// joined class is led by the lesser of the two leaders.
pub open spec fn joined(leaders: Seq<int>, i: int, j: int) -> Seq<int> {
    let a = leaders[i];
    let b = leaders[j];
    let m = if a <= b { a } else { b };
    Seq::new(leaders.len(), |x: int| if leaders[x] == a || leaders[x] == b { m } else { leaders[x] })
}

/// Relies on `UF::new_reflexive`: each of the `size` indices alone in its class.
#[verifier::external_body]
fn uf_new(size: usize) -> (r: UF<usize>)
    ensures
        uf_leaders(r) == Seq::new(size as nat, |i: int| i),
{
    UF::new_reflexive(size)
}

/// Relies on `UF::union`: joins the classes of `i` and `j`.
#[verifier::external_body]
fn uf_union(uf: &mut UF<usize>, i: usize, j: usize)
    requires
        i < uf_leaders(*old(uf)).len(),
        j < uf_leaders(*old(uf)).len(),
    ensures
        uf_leaders(*final(uf)) == joined(uf_leaders(*old(uf)), i as int, j as int),
{
    uf.union(i, j)
}

/// Relies on `UF::find`: the least index of the class of `i`.
#[verifier::external_body]
fn uf_find(uf: &UF<usize>, i: usize) -> (r: usize)
    requires
        i < uf_leaders(*uf).len(),
    ensures
        r == uf_leaders(*uf)[i as int],
{
    uf.find(i)
}

/// `u` and `v` are joined by an edge of `es`, in either direction.
pub open spec fn adjacent(es: Set<(int, int)>, u: int, v: int) -> bool {
    es.contains((u, v)) || es.contains((v, u))
}

/// `p` is a walk along the edges of `es`.
pub open spec fn is_walk(es: Set<(int, int)>, p: Seq<int>) -> bool {
    &&& p.len() >= 1
    &&& forall|k: int| 0 <= k < p.len() - 1 ==> adjacent(es, #[trigger] p[k], p[k + 1])
}

/// `x` and `y` are connected through the edges of `es`.
pub open spec fn linked(es: Set<(int, int)>, x: int, y: int) -> bool {
    exists|p: Seq<int>| #[trigger] is_walk(es, p) && p[0] == x && p.last() == y
}

proof fn lemma_linked_refl(es: Set<(int, int)>, x: int)
    ensures
        linked(es, x, x),
{
    assert(is_walk(es, seq![x]));
}

proof fn lemma_linked_edge(es: Set<(int, int)>, x: int, y: int)
    requires
        adjacent(es, x, y),
    ensures
        linked(es, x, y),
{
    let p = seq![x, y];
    assert(p[0] == x);
    assert(is_walk(es, p));
}

proof fn lemma_linked_sym(es: Set<(int, int)>, x: int, y: int)
    requires
        linked(es, x, y),
    ensures
        linked(es, y, x),
{
    let p = choose|p: Seq<int>| #[trigger] is_walk(es, p) && p[0] == x && p.last() == y;
    let q = Seq::new(p.len(), |k: int| p[p.len() - 1 - k]);
    assert forall|k: int| 0 <= k < q.len() - 1 implies adjacent(es, #[trigger] q[k], q[k + 1]) by {
        let j = p.len() - 2 - k;
        assert(adjacent(es, p[j], p[j + 1]));
    }
    assert(is_walk(es, q));
}

proof fn lemma_linked_trans(es: Set<(int, int)>, x: int, y: int, z: int)
    requires
        linked(es, x, y),
        linked(es, y, z),
    ensures
        linked(es, x, z),
{
    let p = choose|p: Seq<int>| #[trigger] is_walk(es, p) && p[0] == x && p.last() == y;
    let q = choose|q: Seq<int>| #[trigger] is_walk(es, q) && q[0] == y && q.last() == z;
    let w = p.add(q.drop_first());
    assert forall|k: int| 0 <= k < w.len() - 1 implies adjacent(es, #[trigger] w[k], w[k + 1]) by {
        if k < p.len() - 1 {
            assert(adjacent(es, p[k], p[k + 1]));
        } else {
            let j = k - (p.len() - 1);
            assert(adjacent(es, q[j], q[j + 1]));
        }
    }
    assert(is_walk(es, w));
}

proof fn lemma_linked_mono(es: Set<(int, int)>, fs: Set<(int, int)>, x: int, y: int)
    requires
        linked(es, x, y),
        es.subset_of(fs),
    ensures
        linked(fs, x, y),
{
    let p = choose|p: Seq<int>| #[trigger] is_walk(es, p) && p[0] == x && p.last() == y;
    assert forall|k: int| 0 <= k < p.len() - 1 implies adjacent(fs, #[trigger] p[k], p[k + 1]) by {
        assert(adjacent(es, p[k], p[k + 1]));
    }
    assert(is_walk(fs, p));
}

/// Through one new edge `(a, b)`, `x` reaches `y` only if it did before, or it
/// reached one end of the edge and `y` the other.
proof fn lemma_linked_split(es: Set<(int, int)>, a: int, b: int, p: Seq<int>)
    requires
        is_walk(es.insert((a, b)), p),
    ensures
        ({
            let x = p[0];
            let y = p.last();
            ||| linked(es, x, y)
            ||| linked(es, x, a) && linked(es, b, y)
            ||| linked(es, x, b) && linked(es, a, y)
        }),
    decreases p.len(),
{
    let fs = es.insert((a, b));
    let x = p[0];
    let y = p.last();
    if p.len() == 1 {
        lemma_linked_refl(es, x);
    } else {
        let q = p.drop_last();
        assert forall|k: int| 0 <= k < q.len() - 1 implies adjacent(fs, #[trigger] q[k], q[k + 1]) by {
            assert(adjacent(fs, p[k], p[k + 1]));
        }
        lemma_linked_split(es, a, b, q);
        let u = q.last();
        assert(adjacent(fs, p[p.len() - 2], p[p.len() - 1]));
        assert(u == p[p.len() - 2]);
        if adjacent(es, u, y) {
            lemma_linked_edge(es, u, y);
            if linked(es, x, u) {
                lemma_linked_trans(es, x, u, y);
            } else if linked(es, x, a) && linked(es, b, u) {
                lemma_linked_trans(es, b, u, y);
            } else {
                lemma_linked_trans(es, a, u, y);
            }
        } else {
            lemma_linked_refl(es, y);
            assert((u == a && y == b) || (u == b && y == a));
        }
    }
}

/// `leaders` labels each of `n` indices with the least index connected to it
/// through `es`.
pub open spec fn leads(es: Set<(int, int)>, leaders: Seq<int>, n: int) -> bool {
    &&& leaders.len() == n
    &&& forall|x: int| 0 <= x < n ==> 0 <= #[trigger] leaders[x] < n && linked(es, x, leaders[x])
    &&& forall|x: int, y: int|
        0 <= x < n && 0 <= y < n && #[trigger] linked(es, x, y) ==> leaders[x] == leaders[y]
            && leaders[x] <= y
}

proof fn lemma_leads_join(es: Set<(int, int)>, leaders: Seq<int>, n: int, i: int, j: int)
    requires
        leads(es, leaders, n),
        0 <= i < n,
        0 <= j < n,
    ensures
        leads(es.insert((i, j)), joined(leaders, i, j), n),
{
    let fs = es.insert((i, j));
    let l2 = joined(leaders, i, j);
    let a = leaders[i];
    let b = leaders[j];
    assert(es.subset_of(fs));
    lemma_linked_edge(fs, i, j);
    assert forall|x: int| 0 <= x < n implies 0 <= #[trigger] l2[x] < n && linked(fs, x, l2[x]) by {
        lemma_linked_mono(es, fs, x, leaders[x]);
        if leaders[x] == a || leaders[x] == b {
            lemma_linked_mono(es, fs, i, a);
            lemma_linked_mono(es, fs, j, b);
            lemma_linked_sym(fs, i, a);
            lemma_linked_trans(fs, a, i, j);
            lemma_linked_trans(fs, a, j, b);
            if leaders[x] == a {
                lemma_linked_trans(fs, x, a, b);
            } else {
                lemma_linked_sym(fs, a, b);
                lemma_linked_trans(fs, x, b, a);
            }
        }
    }
    assert forall|x: int, y: int|
        0 <= x < n && 0 <= y < n && #[trigger] linked(fs, x, y) implies l2[x] == l2[y] && l2[x]
        <= y by {
        let p = choose|p: Seq<int>| #[trigger] is_walk(fs, p) && p[0] == x && p.last() == y;
        lemma_linked_split(es, i, j, p);
        lemma_linked_refl(es, y);
        if linked(es, x, y) {
        } else if linked(es, x, i) && linked(es, j, y) {
            assert(leaders[x] == a);
            assert(leaders[j] == leaders[y]);
        } else {
            assert(leaders[x] == b);
            assert(leaders[i] == leaders[y]);
        }
    }
}

} // verus!

verus! {

/// The rows of `rows` as sequences of ranges.
pub open spec fn range_rows(rows: Seq<Vec<Range<u16>>>) -> Seq<Seq<Range<u16>>> {
    Seq::new(rows.len(), |k: int| rows[k]@)
}

/// All ranges of `rows`, row after row: range `a` of row `k` stands at
/// `row_start(rows, k) + a`.
pub open spec fn flat(rows: Seq<Seq<Range<u16>>>) -> Seq<Range<u16>>
    decreases rows.len(),
{
    if rows.len() == 0 {
        Seq::empty()
    } else {
        flat(rows.drop_last()).add(rows.last())
    }
}

/// Where the ranges of row `k` begin among all ranges.
pub open spec fn row_start(rows: Seq<Seq<Range<u16>>>, k: int) -> int {
    flat(rows.take(k)).len() as int
}

/// The edge between range `a` of row `k` and range `b` of row `k + 1`.
pub open spec fn pair_edge(rows: Seq<Seq<Range<u16>>>, k: int, a: int, b: int) -> (int, int) {
    (row_start(rows, k) + a, row_start(rows, k + 1) + b)
}

/// The edges between overlapping ranges of rows `k` and `k + 1`, for `k < kk`.
pub open spec fn edges_upto(rows: Seq<Seq<Range<u16>>>, kk: int) -> Set<(int, int)> {
    Set::new(
        |e: (int, int)|
            exists|k: int, a: int, b: int|
                0 <= k < kk && k + 1 < rows.len() && 0 <= a < rows[k].len() && 0 <= b < rows[k
                    + 1].len() && crate::score::overlaps(rows[k][a], rows[k + 1][b]) && e
                    == #[trigger] pair_edge(rows, k, a, b),
    )
}

/// Two ranges are adjacent when they lie in neighbouring rows and overlap.
pub open spec fn overlap_edges(rows: Seq<Seq<Range<u16>>>) -> Set<(int, int)> {
    edges_upto(rows, rows.len() as int)
}

pub open spec fn width(g: Range<u16>) -> int {
    g.end - g.start
}

/// The total width of the ranges below index `n` that are connected to `i`.
pub open spec fn class_width(es: Set<(int, int)>, gs: Seq<Range<u16>>, i: int, n: int) -> int
    decreases n,
{
    if n <= 0 {
        0
    } else {
        class_width(es, gs, i, n - 1) + if linked(es, i, n - 1) {
            width(gs[n - 1])
        } else {
            0
        }
    }
}

/// No index below `i` is connected to it.
pub open spec fn is_least(es: Set<(int, int)>, i: int) -> bool {
    forall|y: int| 0 <= y < i ==> !#[trigger] linked(es, i, y)
}

/// For each range, the area of its connected area if it is the first range of
/// it, else zero.
pub open spec fn component_areas(rows: Seq<Seq<Range<u16>>>) -> Seq<int> {
    let gs = flat(rows);
    let es = overlap_edges(rows);
    Seq::new(
        gs.len(),
        |i: int|
            if is_least(es, i) {
                class_width(es, gs, i, gs.len() as int)
            } else {
                0
            },
    )
}

/// The positive entries of `s`, in order.
pub open spec fn positives(s: Seq<int>) -> Seq<int>
    decreases s.len(),
{
    if s.len() == 0 {
        Seq::empty()
    } else {
        positives(s.drop_last()).add(
            if s.last() > 0 {
                seq![s.last()]
            } else {
                Seq::empty()
            },
        )
    }
}

/// The total width of the ranges below index `n` led by `r`.
spec fn led_width(leaders: Seq<int>, gs: Seq<Range<u16>>, r: int, n: int) -> int
    decreases n,
{
    if n <= 0 {
        0
    } else {
        led_width(leaders, gs, r, n - 1) + if leaders[n - 1] == r {
            width(gs[n - 1])
        } else {
            0
        }
    }
}

/// When no row holds more than 65535 ranges, all rows together hold at most
/// 65535 ranges for each row.
pub proof fn lemma_flat_len(rows: Seq<Seq<Range<u16>>>)
    requires
        forall|k: int| 0 <= k < rows.len() ==> #[trigger] rows[k].len() <= 65535,
    ensures
        flat(rows).len() <= 65535 * rows.len(),
    decreases rows.len(),
{
    if rows.len() > 0 {
        lemma_flat_len(rows.drop_last());
    }
}

proof fn lemma_flat_take(rows: Seq<Seq<Range<u16>>>, k: int)
    requires
        0 <= k <= rows.len(),
    ensures
        flat(rows.take(k)).len() <= flat(rows).len(),
        flat(rows.take(k)) == flat(rows).take(flat(rows.take(k)).len() as int),
        k < rows.len() ==> flat(rows.take(k + 1)) == flat(rows.take(k)).add(rows[k]),
    decreases rows.len() - k,
{
    if k < rows.len() {
        assert(rows.take(k + 1).drop_last() =~= rows.take(k));
        lemma_flat_take(rows.drop_last(), k);
        assert(rows.drop_last().take(k) =~= rows.take(k));
        let a = flat(rows.take(k));
        let b = flat(rows.drop_last());
        assert(b.add(rows.last()).take(a.len() as int) =~= b.take(a.len() as int));
    } else {
        assert(rows.take(k) =~= rows);
    }
}

/// Range `a` of row `k` stands at `row_start(rows, k) + a` among all ranges.
proof fn lemma_flat_index(rows: Seq<Seq<Range<u16>>>, k: int, a: int)
    requires
        0 <= k < rows.len(),
        0 <= a < rows[k].len(),
    ensures
        row_start(rows, k + 1) == row_start(rows, k) + rows[k].len(),
        row_start(rows, k + 1) <= flat(rows).len(),
        flat(rows)[row_start(rows, k) + a] == rows[k][a],
{
    lemma_flat_take(rows, k);
    lemma_flat_take(rows, k + 1);
    let f = flat(rows.take(k + 1));
    assert(f[row_start(rows, k) + a] == rows[k][a]);
}

proof fn lemma_led_width_zero(leaders: Seq<int>, gs: Seq<Range<u16>>, r: int, n: int)
    requires
        forall|y: int| 0 <= y < n ==> leaders[y] != r,
    ensures
        led_width(leaders, gs, r, n) == 0,
    decreases n,
{
    if n > 0 {
        lemma_led_width_zero(leaders, gs, r, n - 1);
    }
}

proof fn lemma_led_width_class(es: Set<(int, int)>, leaders: Seq<int>, gs: Seq<Range<u16>>, r: int, n: int)
    requires
        forall|y: int| 0 <= y < n ==> (leaders[y] == r <==> linked(es, r, y)),
    ensures
        led_width(leaders, gs, r, n) == class_width(es, gs, r, n),
    decreases n,
{
    if n > 0 {
        lemma_led_width_class(es, leaders, gs, r, n - 1);
    }
}

/// Returns, for each set of ranges connected by overlaps between neighbouring
/// rows, its total width, when that is positive. Areas are listed in order of
/// their first range. Each row lists ordered, non-overlapping ranges, and the
/// number of ranges fits in 32 bits.
pub fn gaps_contiguous_areas(rows: &Vec<Vec<Range<u16>>>) -> (r: Vec<u64>)
    requires
        forall|k: int| 0 <= k < rows.len() ==> ordered_ranges(#[trigger] rows@[k]@),
        flat(range_rows(rows@)).len() <= 0xFFFF_FFFF,
    ensures
        r@.len() == positives(component_areas(range_rows(rows@))).len(),
        forall|k: int|
            0 <= k < r.len() ==> r@[k] as int == #[trigger] positives(
                component_areas(range_rows(rows@)),
            )[k],
        forall|k: int| 0 <= k < r.len() ==> #[trigger] r@[k] < 0x1_0000_0000_0000,
{
    let ghost rr = range_rows(rows@);
    // Lay all ranges out in one sequence, remembering where each row starts.
    let mut gaps: Vec<Range<u16>> = Vec::new();
    let mut starts: Vec<usize> = Vec::new();
    starts.push(0);
    let mut k: usize = 0;
    proof {
        assert(rr.take(0) =~= Seq::<Seq<Range<u16>>>::empty());
    }
    while k < rows.len()
        invariant
            rr == range_rows(rows@),
            flat(rr).len() <= 0xFFFF_FFFF,
            k <= rows.len(),
            gaps@ == flat(rr.take(k as int)),
            forall|l: int| 0 <= l < gaps@.len() ==> (#[trigger] gaps@[l]).start <= gaps@[l].end,
            forall|l: int| 0 <= l < rows.len() ==> ordered_ranges(#[trigger] rows@[l]@),
            starts@.len() == k + 1,
            forall|l: int| 0 <= l <= k ==> #[trigger] starts@[l] == row_start(rr, l),
        decreases rows.len() - k,
    {
        let row = &rows[k];
        let mut a: usize = 0;
        let ghost before = gaps@;
        while a < row.len()
            invariant
                k < rows.len(),
                row == rows@[k as int],
                a <= row.len(),
                gaps@ == before.add(row@.take(a as int)),
                ordered_ranges(row@),
                forall|l: int| 0 <= l < gaps@.len() ==> (#[trigger] gaps@[l]).start <= gaps@[l].end,
            decreases row.len() - a,
        {
            gaps.push(Range { start: row[a].start, end: row[a].end });
            a = a + 1;
            assert(gaps@ =~= before.add(row@.take(a as int)));
        }
        proof {
            lemma_flat_take(rr, k as int);
            lemma_flat_take(rr, k + 1);
            assert(row@.take(a as int) =~= rr[k as int]);
        }
        starts.push(gaps.len());
        k = k + 1;
    }
    proof {
        assert(rr.take(k as int) =~= rr);
    }
    let n = gaps.len();
    let ghost gs = gaps@;

    // Join every pair of overlapping ranges in neighbouring rows.
    let mut uf = uf_new(n);
    let ghost mut es: Set<(int, int)> = Set::empty();
    proof {
        assert forall|x: int, y: int| 0 <= x < n && 0 <= y < n && #[trigger] linked(es, x, y) implies x == y by {
            let p = choose|p: Seq<int>| #[trigger] is_walk(es, p) && p[0] == x && p.last() == y;
            if p.len() > 1 {
                assert(adjacent(es, p[0], p[1]));
            }
        }
        assert forall|x: int| 0 <= x < n implies linked(es, x, x) by {
            lemma_linked_refl(es, x);
        }
        assert(leads(es, uf_leaders(uf), n as int));
        assert(edges_upto(rr, 0) =~= es);
    }
    let mut k: usize = 1;
    while k < rows.len()
        invariant
            rr == range_rows(rows@),
            forall|l: int| 0 <= l < rows.len() ==> ordered_ranges(#[trigger] rows@[l]@),
            1 <= k,
            k <= rows.len() || rows.len() == 0,
            n == gs.len(),
            gs == flat(rr),
            starts@.len() == rows.len() + 1,
            forall|l: int| 0 <= l <= rows.len() ==> #[trigger] starts@[l] == row_start(rr, l),
            leads(es, uf_leaders(uf), n as int),
            es == edges_upto(rr, k - 1),
        decreases rows.len() - k,
    {
        let row1 = rows[k - 1].as_slice();
        let row2 = rows[k].as_slice();
        let s0 = starts[k - 1];
        let s1 = starts[k];
        let pairs = intersecting_ranges(row1, row2);
        proof {
            lemma_flat_take(rr, k - 1);
            lemma_flat_take(rr, k as int);
            lemma_flat_take(rr, k + 1);
            assert(s1 == s0 + rr[k - 1].len());
            assert(starts@[k + 1] == s1 + rr[k as int].len());
            assert(starts@[k + 1] <= n);
        }
        let ghost es0 = es;
        let mut t: usize = 0;
        while t < pairs.len()
            invariant
                rr == range_rows(rows@),
                1 <= k < rows.len(),
                row1@ == rr[k - 1],
                row2@ == rr[k as int],
                lists_intersections(row1@, row2@, pairs@),
                s0 == row_start(rr, k - 1),
                s1 == row_start(rr, k as int),
                s1 == s0 + row1@.len(),
                s1 + row2@.len() <= n,
                n == gs.len(),
                t <= pairs.len(),
                es0 == edges_upto(rr, k - 1),
                leads(es, uf_leaders(uf), n as int),
                es == es0.union(
                    Set::new(
                        |e: (int, int)|
                            exists|u: int|
                                0 <= u < t && e == (s0 + (#[trigger] pairs@[u]).0, s1 + pairs@[u].1),
                    ),
                ),
            decreases pairs.len() - t,
        {
            let (i0, i1) = pairs[t];
            assert(pairs@.contains((i0, i1)));
            assert(is_intersection(row1@, row2@, (i0, i1)));
            let ghost e = (s0 + i0, s1 + i1);
            proof {
                lemma_leads_join(es, uf_leaders(uf), n as int, s0 + i0, s1 + i1);
            }
            uf_union(&mut uf, s0 + i0, s1 + i1);
            proof {
                es = es.insert(e);
            }
            t = t + 1;
            proof {
                let new_set = Set::new(
                    |e2: (int, int)|
                        exists|u: int|
                            0 <= u < t && e2 == (s0 + (#[trigger] pairs@[u]).0, s1 + pairs@[u].1),
                );
                assert forall|e2: (int, int)| es.contains(e2) <==> es0.union(new_set).contains(e2) by {
                    if e2 == e {
                        assert(pairs@[t - 1] == (i0, i1));
                    }
                }
                assert(es =~= es0.union(new_set));
            }
        }
        proof {
            let kk = k - 1;
            let list_set = Set::new(
                |e2: (int, int)|
                    exists|u: int|
                        0 <= u < t && e2 == (s0 + (#[trigger] pairs@[u]).0, s1 + pairs@[u].1),
            );
            assert forall|e2: (int, int)| es.contains(e2) <==> #[trigger] edges_upto(rr, k as int).contains(e2) by {
                if list_set.contains(e2) {
                    let u = choose|u: int|
                        0 <= u < t && e2 == (s0 + (#[trigger] pairs@[u]).0, s1 + pairs@[u].1);
                    assert(pairs@.contains(pairs@[u]));
                    assert(is_intersection(row1@, row2@, pairs@[u]));
                    assert(e2 == pair_edge(rr, kk, pairs@[u].0 as int, pairs@[u].1 as int));
                }
                if edges_upto(rr, k as int).contains(e2) && !es0.contains(e2) {
                    let (k2, a, b) = choose|k2: int, a: int, b: int|
                        0 <= k2 < k && k2 + 1 < rr.len() && 0 <= a < rr[k2].len() && 0 <= b < rr[k2
                            + 1].len() && crate::score::overlaps(rr[k2][a], rr[k2 + 1][b]) && e2
                            == #[trigger] pair_edge(rr, k2, a, b);
                    assert(k2 == kk);
                    assert(is_intersection(row1@, row2@, (a as usize, b as usize)));
                    assert(pairs@.contains((a as usize, b as usize)));
                    let u = choose|u: int| 0 <= u < pairs@.len() && pairs@[u] == (a as usize, b as usize);
                    assert(list_set.contains(e2));
                }
            }
            assert(es =~= edges_upto(rr, k as int));
        }
        k = k + 1;
    }
    proof {
        assert(es =~= overlap_edges(rr));
    }
    let ghost leaders = uf_leaders(uf);

    // Add up the width of each connected area at its first range.
    let mut areas: Vec<u64> = Vec::new();
    let mut x: usize = 0;
    while x < n
        invariant
            x <= n,
            areas@.len() == x,
            forall|l: int| 0 <= l < x ==> areas@[l] == 0,
        decreases n - x,
    {
        areas.push(0);
        x = x + 1;
    }
    let mut x: usize = 0;
    while x < n
        invariant
            n == gs.len(),
            n <= 0xFFFF_FFFF,
            gs == gaps@,
            forall|l: int| 0 <= l < gaps@.len() ==> (#[trigger] gaps@[l]).start <= gaps@[l].end,
            leaders == uf_leaders(uf),
            leads(es, leaders, n as int),
            x <= n,
            areas@.len() == n,
            forall|l: int| 0 <= l < n ==> #[trigger] areas@[l] == led_width(leaders, gs, l, x as int),
            forall|l: int| 0 <= l < n ==> #[trigger] areas@[l] <= 65535 * x,
        decreases n - x,
    {
        let r = uf_find(&uf, x);
        let w = gaps[x].end - gaps[x].start;
        areas.set(r, areas[r] + w as u64);
        x = x + 1;
        assert forall|l: int| 0 <= l < n implies #[trigger] areas@[l] == led_width(leaders, gs, l, x as int) by {
        }
    }

    // Keep the positive areas.
    let mut out: Vec<u64> = Vec::new();
    let mut x: usize = 0;
    let ghost areas_int = Seq::new(n as nat, |l: int| areas@[l] as int);
    proof {
        let ca = component_areas(rr);
        assert forall|i: int| 0 <= i < n implies #[trigger] areas_int[i] == ca[i] by {
            assert(linked(es, i, leaders[i]));
            lemma_linked_refl(es, i);
            if is_least(es, i) {
                assert(leaders[i] == i);
                assert forall|y: int| 0 <= y < n implies (leaders[y] == i <==> linked(es, i, y)) by {
                    if leaders[y] == i {
                        assert(linked(es, y, leaders[y]));
                        lemma_linked_sym(es, y, i);
                    }
                    if linked(es, i, y) {
                        assert(leaders[i] == leaders[y]);
                    }
                }
                lemma_led_width_class(es, leaders, gs, i, n as int);
            } else {
                let y = choose|y: int| 0 <= y < i && #[trigger] linked(es, i, y);
                assert forall|z: int| 0 <= z < n implies leaders[z] != i by {
                    if leaders[z] == i {
                        assert(linked(es, z, leaders[z]));
                        lemma_linked_sym(es, z, i);
                        lemma_linked_trans(es, i, z, i);
                        assert(leaders[i] <= y);
                        assert(leaders[z] == leaders[i]);
                    }
                }
                lemma_led_width_zero(leaders, gs, i, n as int);
            }
        }
        assert(areas_int =~= ca);
        assert(areas_int.take(0) =~= Seq::<int>::empty());
    }
    while x < n
        invariant
            x <= n,
            areas@.len() == n,
            areas_int == Seq::new(n as nat, |l: int| areas@[l] as int),
            out@.len() == positives(areas_int.take(x as int)).len(),
            forall|l: int| 0 <= l < out.len() ==> out@[l] as int == #[trigger] positives(areas_int.take(x as int))[l],
            n <= 0xFFFF_FFFF,
            forall|l: int| 0 <= l < n ==> #[trigger] areas@[l] <= 65535 * n,
            forall|l: int| 0 <= l < out.len() ==> #[trigger] out@[l] < 0x1_0000_0000_0000,
        decreases n - x,
    {
        if areas[x] > 0 {
            out.push(areas[x]);
        }
        x = x + 1;
        assert(areas_int.take(x as int).drop_last() =~= areas_int.take(x - 1));
    }
    assert(areas_int.take(n as int) =~= areas_int);
    out
}

} // verus!
