//! A set of same-depth cells held as sorted, coalesced ranges.
//!
//! The ranges live in the deepest-level address space (depth 29): a cell `c`
//! at depth `d` covers `[c * 4^(29-d), (c + 1) * 4^(29-d))`.

use vstd::prelude::*;
use moc::moc::range::RangeMOC;
use moc::qty::Hpx;
use crate::slices::{Slice, resolve_spec, resolve_bound};
use crate::zuniq::{pow4, n_cells, lemma_pow4_add, lemma_pow4_positive, lemma_pow4_values, cell_count, unit_count};

verus! {

/// A MOC of HEALPix cells with 64-bit indices, opaque to proofs: what it
/// holds is known through `moc_ranges` and `moc_depth`.
#[verifier::external_body]
pub struct HpxMoc {
    inner: RangeMOC<u64, Hpx<u64>>,
}

/// The ranges a MOC holds, in order, as `(start, end)` pairs.
pub uninterp spec fn moc_ranges(m: HpxMoc) -> Seq<(u64, u64)>;

/// The depth a MOC was built at.
pub uninterp spec fn moc_depth(m: HpxMoc) -> u8;

/// Deepest-level cells in one cell at depth `d`.
pub open spec fn unit(d: nat) -> nat {
    pow4((29 - d) as nat)
}

/// Ranges sorted, non-empty, pairwise separated by a gap, inside the domain,
/// and aligned on cells of depth `d`.
pub open spec fn ranges_wf(rs: Seq<(u64, u64)>, d: nat) -> bool {
    &&& d <= 29
    &&& forall|i: int| 0 <= i < rs.len() ==> range_ok(#[trigger] rs[i], d)
    &&& forall|i: int, j: int| 0 <= i < j < rs.len() ==> #[trigger] rs[i].1 < #[trigger] rs[j].0
}

/// One range: non-empty, inside the domain, aligned on cells of depth `d`.
pub open spec fn range_ok(r: (u64, u64), d: nat) -> bool {
    &&& r.0 < r.1
    &&& r.1 <= n_cells(29)
    &&& r.0 as nat % unit(d) == 0
    &&& r.1 as nat % unit(d) == 0
}

/// A MOC whose ranges are well formed at its own depth.
pub open spec fn moc_wf(m: HpxMoc) -> bool {
    ranges_wf(moc_ranges(m), moc_depth(m) as nat)
}

/// Some range holds the deepest-level value `v`.
pub open spec fn covers(rs: Seq<(u64, u64)>, v: int) -> bool {
    exists|i: int| 0 <= i < rs.len() && #[trigger] rs[i].0 <= v < rs[i].1
}

/// The depth-`d` cells the ranges cover.
pub open spec fn cells_of(rs: Seq<(u64, u64)>, d: nat) -> Set<u64> {
    Set::new(|c: u64| (c as nat) < n_cells(d) && covers(rs, c * unit(d)))
}

/// All cells of depth `d`.
pub open spec fn all_cells(d: nat) -> Set<u64> {
    Set::new(|c: u64| (c as nat) < n_cells(d))
}

/// The integers `a, a + 1, ..., b - 1`.
pub open spec fn interval(a: nat, b: nat) -> Seq<u64> {
    Seq::new((b - a) as nat, |k: int| (a + k) as u64)
}

/// The depth-`d` cells of the ranges, in order.
pub open spec fn flatten(rs: Seq<(u64, u64)>, d: nat) -> Seq<u64>
    decreases rs.len(),
{
    if rs.len() == 0 {
        Seq::empty()
    } else {
        flatten(rs.drop_last(), d) + interval(
            rs.last().0 as nat / unit(d),
            rs.last().1 as nat / unit(d),
        )
    }
}

/// Sum of the range lengths.
pub open spec fn range_sum(rs: Seq<(u64, u64)>) -> nat
    decreases rs.len(),
{
    if rs.len() == 0 {
        0
    } else {
        range_sum(rs.drop_last()) + (rs.last().1 - rs.last().0) as nat
    }
}

pub open spec fn strictly_increasing(s: Seq<u64>) -> bool {
    forall|i: int, j: int| 0 <= i < j < s.len() ==> s[i] < s[j]
}

/// `n_cells(29) == n_cells(d) * unit(d)`.
pub proof fn lemma_domain_split(d: nat)
    requires
        d <= 29,
    ensures
        n_cells(29) == n_cells(d) * unit(d),
        unit(d) >= 1,
        n_cells(29) == 0x3000_0000_0000_0000,
{
    lemma_pow4_add(d, (29 - d) as nat);
    lemma_pow4_positive((29 - d) as nat);
    lemma_pow4_values();
    assert(12 * (pow4(d) * unit(d)) == 12 * pow4(d) * unit(d)) by (nonlinear_arith);
}

proof fn lemma_wf_drop_last(rs: Seq<(u64, u64)>, d: nat)
    requires
        ranges_wf(rs, d),
        rs.len() > 0,
    ensures
        ranges_wf(rs.drop_last(), d),
{
    let r = rs.drop_last();
    assert forall|i: int| 0 <= i < r.len() implies range_ok(#[trigger] r[i], d) by {
        assert(r[i] == rs[i]);
    }
    assert forall|i: int, j: int| 0 <= i < j < r.len() implies #[trigger] r[i].1 < #[trigger] r[j].0 by {
        assert(r[i] == rs[i] && r[j] == rs[j]);
    }
}

/// What the flattened cell sequence of well-formed ranges is: strictly
/// increasing, of `range_sum / unit` cells, each covered, and holding every
/// covered cell.
pub proof fn lemma_flatten(rs: Seq<(u64, u64)>, d: nat)
    requires
        ranges_wf(rs, d),
    ensures
        flatten(rs, d).len() * unit(d) == range_sum(rs),
        strictly_increasing(flatten(rs, d)),
        forall|k: int|
            0 <= k < flatten(rs, d).len() ==> covers(rs, #[trigger] flatten(rs, d)[k] * unit(d))
                && (flatten(rs, d)[k] as nat) < n_cells(d),
        forall|c: u64|
            (c as nat) < n_cells(d) && covers(rs, c * unit(d)) ==> flatten(rs, d).contains(c),
        rs.len() > 0 ==> forall|k: int|
            0 <= k < flatten(rs, d).len() ==> #[trigger] flatten(rs, d)[k] * unit(d) < rs.last().1,
    decreases rs.len(),
{
    let u = unit(d);
    lemma_domain_split(d);
    if rs.len() > 0 {
        let rp = rs.drop_last();
        lemma_wf_drop_last(rs, d);
        lemma_flatten(rp, d);
        let fp = flatten(rp, d);
        assert(range_ok(rs[rs.len() - 1], d));
        let s = rs.last().0 as nat;
        let e = rs.last().1 as nat;
        let a = s / u;
        let b = e / u;
        assert(rs.last() == rs[rs.len() - 1]);
        assert(s == a * u) by (nonlinear_arith)
            requires
                s % u == 0,
                u >= 1,
                a == s / u,
        ;
        assert(e == b * u) by (nonlinear_arith)
            requires
                e % u == 0,
                u >= 1,
                b == e / u,
        ;
        assert(a < b) by (nonlinear_arith)
            requires
                s == a * u,
                e == b * u,
                s < e,
                u >= 1,
        ;
        let iv = interval(a, b);
        let f = flatten(rs, d);
        assert(f == fp + iv);
        // length
        assert((fp.len() + (b - a)) * u == fp.len() * u + (e - s)) by (nonlinear_arith)
            requires
                s == a * u,
                e == b * u,
                a < b,
        ;
        // every cell of the previous ranges lies before the last range
        assert forall|k: int| 0 <= k < fp.len() implies (#[trigger] fp[k] as nat) < a by {
            if rp.len() > 0 {
                assert(rp.last() == rs[rp.len() - 1]);
                assert(rs[rp.len() - 1].1 < rs[rs.len() - 1].0);
                let x = fp[k] as nat;
                assert(x < a) by (nonlinear_arith)
                    requires
                        x * u < s,
                        s == a * u,
                        u >= 1,
                ;
            }
        }
        // the last range's cells
        assert forall|k: int| 0 <= k < iv.len() implies covers(rs, #[trigger] iv[k] * u) && (
        iv[k] as nat) < n_cells(d) && iv[k] * u < e by {
            let x = a + k;
            assert(iv[k] == (a + k) as u64);
            assert(x < n_cells(d)) by (nonlinear_arith)
                requires
                    x < b,
                    e == b * u,
                    e <= n_cells(29),
                    n_cells(29) == n_cells(d) * u,
                    u >= 1,
            ;
            assert(n_cells(d) <= n_cells(29)) by (nonlinear_arith)
                requires
                    n_cells(29) == n_cells(d) * u,
                    u >= 1,
            ;
            assert(iv[k] as nat == x);
            assert(s <= x * u && x * u < e) by (nonlinear_arith)
                requires
                    s == a * u,
                    e == b * u,
                    a <= x < b,
                    u >= 1,
            ;
            assert(iv[k] * u == x * u);
            assert(rs[rs.len() - 1].0 <= iv[k] * u < rs[rs.len() - 1].1);
            assert(covers(rs, iv[k] * u));
        }
        assert forall|k: int| 0 <= k < f.len() implies covers(rs, #[trigger] f[k] * u) && (
        f[k] as nat) < n_cells(d) && f[k] * u < rs.last().1 by {
            if k < fp.len() {
                assert(f[k] == fp[k]);
                let i = choose|i: int| 0 <= i < rp.len() && #[trigger] rp[i].0 <= fp[k] * u < rp[i].1;
                assert(rp[i] == rs[i]);
                assert(rs[i].0 <= f[k] * u < rs[i].1);
                assert(fp[k] * u < s) by (nonlinear_arith)
                    requires
                        (fp[k] as nat) < a,
                        s == a * u,
                        u >= 1,
                ;
            } else {
                assert(f[k] == iv[k - fp.len()]);
            }
        }
        assert forall|i: int, j: int| 0 <= i < j < f.len() implies f[i] < f[j] by {
            if j < fp.len() {
                assert(f[i] == fp[i] && f[j] == fp[j]);
            } else if i < fp.len() {
                assert(f[i] == fp[i]);
                assert(f[j] == iv[j - fp.len()]);
            } else {
                assert(f[i] == iv[i - fp.len()]);
                assert(f[j] == iv[j - fp.len()]);
            }
        }
        assert forall|c: u64| (c as nat) < n_cells(d) && covers(rs, c * u) implies f.contains(c) by {
            let i = choose|i: int| 0 <= i < rs.len() && #[trigger] rs[i].0 <= c * u < rs[i].1;
            if i == rs.len() - 1 {
                let x = c as nat;
                assert(a <= x < b) by (nonlinear_arith)
                    requires
                        s == a * u,
                        e == b * u,
                        s <= x * u < e,
                        u >= 1,
                ;
                assert(iv[x - a] == c);
                assert(f[fp.len() + x - a] == c);
            } else {
                assert(rp[i] == rs[i]);
                assert(covers(rp, c * u));
                assert(fp.contains(c));
                let k = choose|k: int| 0 <= k < fp.len() && fp[k] == c;
                assert(f[k] == c);
            }
        }
    }
}

/// The flattened cells of well-formed ranges are exactly their covered
/// cells, each once.
pub proof fn lemma_flatten_set(rs: Seq<(u64, u64)>, d: nat)
    requires
        ranges_wf(rs, d),
    ensures
        flatten(rs, d).no_duplicates(),
        flatten(rs, d).to_set() == cells_of(rs, d),
        cells_of(rs, d).len() == flatten(rs, d).len(),
{
    lemma_flatten(rs, d);
    let f = flatten(rs, d);
    assert forall|i: int, j: int| 0 <= i < f.len() && 0 <= j < f.len() && i != j implies f[i]
        != f[j] by {
        if i < j {
            assert(f[i] < f[j]);
        } else {
            assert(f[j] < f[i]);
        }
    }
    assert forall|c: u64| f.to_set().contains(c) <==> cells_of(rs, d).contains(c) by {
        if f.to_set().contains(c) {
            let k = choose|k: int| 0 <= k < f.len() && f[k] == c;
            assert(covers(rs, f[k] * unit(d)));
        }
    }
    assert(f.to_set() =~= cells_of(rs, d));
    f.unique_seq_to_set();
}

proof fn lemma_wf_take(rs: Seq<(u64, u64)>, d: nat, k: int)
    requires
        ranges_wf(rs, d),
        0 <= k <= rs.len(),
    ensures
        ranges_wf(rs.take(k), d),
{
    let r = rs.take(k);
    assert forall|i: int| 0 <= i < r.len() implies range_ok(#[trigger] r[i], d) by {
        assert(r[i] == rs[i]);
    }
    assert forall|i: int, j: int| 0 <= i < j < r.len() implies #[trigger] r[i].1 < #[trigger] r[j].0 by {
        assert(r[i] == rs[i] && r[j] == rs[j]);
    }
}

proof fn lemma_flatten_take_step(rs: Seq<(u64, u64)>, d: nat, k: int)
    requires
        0 <= k < rs.len(),
    ensures
        flatten(rs.take(k + 1), d) == flatten(rs.take(k), d) + interval(
            rs[k].0 as nat / unit(d),
            rs[k].1 as nat / unit(d),
        ),
{
    assert(rs.take(k + 1).drop_last() =~= rs.take(k));
    assert(rs.take(k + 1).last() == rs[k]);
}

proof fn lemma_flatten_push(rs: Seq<(u64, u64)>, d: nat, r: (u64, u64))
    ensures
        flatten(rs.push(r), d) == flatten(rs, d) + interval(r.0 as nat / unit(d), r.1 as nat / unit(d)),
{
    assert(rs.push(r).drop_last() =~= rs);
    assert(rs.push(r).last() == r);
}

/// Disjoint sorted ranges sum to at most the end of the last one.
proof fn lemma_range_sum_bound(rs: Seq<(u64, u64)>, d: nat)
    requires
        ranges_wf(rs, d),
        rs.len() > 0,
    ensures
        range_sum(rs) <= rs.last().1,
    decreases rs.len(),
{
    assert(range_ok(rs[rs.len() - 1], d));
    assert(rs.last() == rs[rs.len() - 1]);
    let rp = rs.drop_last();
    if rp.len() > 0 {
        lemma_wf_drop_last(rs, d);
        lemma_range_sum_bound(rp, d);
        assert(rp.last() == rs[rp.len() - 1]);
        assert(rs[rp.len() - 1].1 < rs[rs.len() - 1].0);
    } else {
        assert(range_sum(rp) == 0);
    }
}

/// A window of a concatenation is the window of each part.
proof fn lemma_window_concat(f: Seq<u64>, g: Seq<u64>, start: int, stop: int)
    requires
        0 <= start <= stop,
    ensures
        ({
            let p = f.len() as int;
            let q = p + g.len();
            let lo = if start < p { p } else { start };
            let hi = if stop < q { stop } else { q };
            (f + g).subrange(
                if start < q { start } else { q },
                if stop < q { stop } else { q },
            ) == f.subrange(if start < p { start } else { p }, if stop < p { stop } else { p })
                + (if lo < hi { g.subrange(lo - p, hi - p) } else { Seq::empty() })
        }),
{
    let p = f.len() as int;
    let q = p + g.len();
    let lo = if start < p { p } else { start };
    let hi = if stop < q { stop } else { q };
    let left = (f + g).subrange(if start < q { start } else { q }, if stop < q { stop } else { q });
    let right = f.subrange(if start < p { start } else { p }, if stop < p { stop } else { p })
        + (if lo < hi { g.subrange(lo - p, hi - p) } else { Seq::empty() });
    assert(left =~= right);
}

proof fn lemma_interval_window(a: nat, b: nat, x: int, y: int)
    requires
        0 <= x <= y <= b - a,
    ensures
        interval(a, b).subrange(x, y) == interval((a + x) as nat, (a + y) as nat),
{
    assert(interval(a, b).subrange(x, y) =~= interval((a + x) as nat, (a + y) as nat));
}

/// The number of maximal runs of consecutive values in `s`.
pub open spec fn runs(s: Seq<u64>) -> nat
    decreases s.len(),
{
    if s.len() == 0 {
        0
    } else {
        runs(s.drop_last()) + (if s.len() >= 2 && s[s.len() - 1] == s[s.len() - 2] + 1 {
            0nat
        } else {
            1nat
        })
    }
}

proof fn lemma_runs_append_interval(f: Seq<u64>, a: nat, b: nat)
    requires
        a < b,
        b <= 0xffff_ffff_ffff_ffff,
        f.len() == 0 || f.last() + 1 < a,
    ensures
        runs(f + interval(a, b)) == runs(f) + 1,
    decreases b - a,
{
    let g = f + interval(a, b);
    if b == a + 1 {
        assert(g.drop_last() =~= f);
        assert(g[g.len() - 1] == a);
        if f.len() > 0 {
            assert(g[g.len() - 2] == f.last());
        }
    } else {
        let h = f + interval(a, (b - 1) as nat);
        assert(g.drop_last() =~= h);
        lemma_runs_append_interval(f, a, (b - 1) as nat);
        assert(g[g.len() - 1] == (b - 1) as u64);
        assert(g[g.len() - 2] == (b - 2) as u64);
    }
}

/// Well-formed ranges are exactly the maximal runs of their cells.
proof fn lemma_ranges_are_runs(rs: Seq<(u64, u64)>, d: nat)
    requires
        ranges_wf(rs, d),
    ensures
        rs.len() == runs(flatten(rs, d)),
        rs.len() > 0 ==> flatten(rs, d).len() > 0 && flatten(rs, d).last() + 1 == rs.last().1
            as nat / unit(d),
    decreases rs.len(),
{
    if rs.len() > 0 {
        let u = unit(d);
        lemma_domain_split(d);
        let rp = rs.drop_last();
        lemma_wf_drop_last(rs, d);
        lemma_ranges_are_runs(rp, d);
        assert(range_ok(rs[rs.len() - 1], d));
        assert(rs.last() == rs[rs.len() - 1]);
        let s0 = rs.last().0 as nat;
        let e0 = rs.last().1 as nat;
        let a = s0 / u;
        let b = e0 / u;
        assert(s0 == a * u) by (nonlinear_arith)
            requires
                s0 % u == 0,
                u >= 1,
                a == s0 / u,
        ;
        assert(e0 == b * u) by (nonlinear_arith)
            requires
                e0 % u == 0,
                u >= 1,
                b == e0 / u,
        ;
        assert(a < b) by (nonlinear_arith)
            requires
                s0 == a * u,
                e0 == b * u,
                s0 < e0,
                u >= 1,
        ;
        assert(b <= e0) by (nonlinear_arith)
            requires
                e0 == b * u,
                u >= 1,
        ;
        let fp = flatten(rp, d);
        if rp.len() > 0 {
            assert(rp.last() == rs[rp.len() - 1]);
            assert(range_ok(rs[rp.len() - 1], d));
            let pe = rp.last().1 as nat;
            let pb = pe / u;
            assert(pe < s0);
            assert(pe == pb * u) by (nonlinear_arith)
                requires
                    pe % u == 0,
                    u >= 1,
                    pb == pe / u,
            ;
            assert(pb < a) by (nonlinear_arith)
                requires
                    pe == pb * u,
                    s0 == a * u,
                    pe < s0,
                    u >= 1,
            ;
        }
        lemma_runs_append_interval(fp, a, b);
        let f = flatten(rs, d);
        assert(f == fp + interval(a, b));
        assert(f.last() == interval(a, b)[(b - a) - 1]);
    }
}

// ---------------------------------------------------------------------------
// Calls into the moc crate.

/// Relies on moc's RangeMOC::new_full_domain: one range from 0 to
/// `12 << 58`, the end of the depth-29 domain.
#[verifier::external_body]
fn moc_full_domain(depth: u8) -> (r: HpxMoc)
    requires
        depth <= 29,
    ensures
        moc_depth(r) == depth,
        moc_ranges(r) == seq![(0u64, 0x3000_0000_0000_0000u64)],
{
    HpxMoc { inner: RangeMOC::new_full_domain(depth) }
}

/// Relies on moc's RangeMOC::from_fixed_depth_cells: sorts the cells,
/// merges consecutive ones and shifts them to depth-29 ranges.
#[verifier::external_body]
fn moc_from_cells(depth: u8, ids: &Vec<u64>) -> (r: HpxMoc)
    requires
        depth <= 29,
        forall|i: int| 0 <= i < ids.len() ==> (ids[i] as nat) < n_cells(depth as nat),
    ensures
        moc_depth(r) == depth,
        moc_wf(r),
        cells_of(moc_ranges(r), depth as nat) == ids@.to_set(),
{
    HpxMoc { inner: RangeMOC::from_fixed_depth_cells(depth, ids.iter().copied(), None) }
}

/// Relies on moc's RangeMOC::union: the merged ranges cover what either
/// side covers; bounds are taken from the inputs and touching ranges merge.
#[verifier::external_body]
fn moc_union(a: &HpxMoc, b: &HpxMoc) -> (r: HpxMoc)
    requires
        moc_wf(*a),
        moc_wf(*b),
        moc_depth(*a) == moc_depth(*b),
    ensures
        moc_depth(r) == moc_depth(*a),
        moc_wf(r),
        forall|v: int| covers(moc_ranges(r), v) <==> (covers(moc_ranges(*a), v) || covers(moc_ranges(*b), v)),
{
    HpxMoc { inner: a.inner.union(&b.inner) }
}

/// Relies on moc's RangeMOC::intersection: the ranges cover what both sides
/// cover; bounds are taken from the inputs.
#[verifier::external_body]
fn moc_intersection(a: &HpxMoc, b: &HpxMoc) -> (r: HpxMoc)
    requires
        moc_wf(*a),
        moc_wf(*b),
        moc_depth(*a) == moc_depth(*b),
    ensures
        moc_depth(r) == moc_depth(*a),
        moc_wf(r),
        forall|v: int| covers(moc_ranges(r), v) <==> (covers(moc_ranges(*a), v) && covers(moc_ranges(*b), v)),
{
    HpxMoc { inner: a.inner.intersection(&b.inner) }
}

/// The cells of a set at `depth` that lie on its inner edge: those with a
/// neighbour outside the set, as the tiling decides.
pub uninterp spec fn internal_border_of(depth: u8, cells: Set<u64>) -> Set<u64>;

/// Relies on moc's RangeMOC::internal_border: the intersection of the MOC
/// with its expanded complement, at the same depth. It depends on the cells
/// alone; for the whole domain the complement is empty, and so is its
/// expansion and the border.
#[verifier::external_body]
fn moc_internal_border(m: &HpxMoc) -> (r: HpxMoc)
    requires
        moc_wf(*m),
    ensures
        moc_depth(r) == moc_depth(*m),
        moc_wf(r),
        cells_of(moc_ranges(r), moc_depth(r) as nat) == internal_border_of(
            moc_depth(*m),
            cells_of(moc_ranges(*m), moc_depth(*m) as nat),
        ),
        forall|v: int| covers(moc_ranges(r), v) ==> covers(moc_ranges(*m), v),
        cells_of(moc_ranges(*m), moc_depth(*m) as nat) == all_cells(moc_depth(*m) as nat) ==> moc_ranges(
            r,
        ).len() == 0,
{
    HpxMoc { inner: m.inner.internal_border() }
}

/// Relies on moc's RangeMOC::n_depth_max_cells: the range lengths summed,
/// shifted right by `2 * (29 - depth)`.
#[verifier::external_body]
fn moc_n_cells(m: &HpxMoc) -> (r: u64)
    requires
        moc_wf(*m),
    ensures
        r as nat == range_sum(moc_ranges(*m)) / unit(moc_depth(*m) as nat),
{
    m.inner.n_depth_max_cells()
}

/// Relies on moc's RangeMOC::len: the number of ranges.
#[verifier::external_body]
fn moc_len(m: &HpxMoc) -> (r: usize)
    ensures
        r == moc_ranges(*m).len(),
{
    m.inner.len()
}

/// Relies on moc's RangeMOC::depth_max.
#[verifier::external_body]
fn moc_depth_max(m: &HpxMoc) -> (r: u8)
    ensures
        r == moc_depth(*m),
{
    m.inner.depth_max()
}

/// Relies on moc's RangeMOC::flatten_to_fixed_depth_cells: each range
/// yields its cells at the MOC depth, in order.
#[verifier::external_body]
fn moc_flatten(m: &HpxMoc) -> (r: Vec<u64>)
    requires
        moc_wf(*m),
    ensures
        r@ == flatten(moc_ranges(*m), moc_depth(*m) as nat),
{
    m.inner.flatten_to_fixed_depth_cells().collect()
}

/// Relies on moc's RangeMOC::moc_ranges: the ranges, copied out as pairs.
#[verifier::external_body]
fn moc_range_pairs(m: &HpxMoc) -> (r: Vec<(u64, u64)>)
    ensures
        r@ == moc_ranges(*m),
{
    m.inner.moc_ranges().iter().map(|r| (r.start, r.end)).collect()
}

/// Relies on moc's RangeMOC::new over MocRanges::new_unchecked: the ranges
/// are kept as given.
#[verifier::external_body]
fn moc_from_range_pairs(depth: u8, rs: Vec<(u64, u64)>) -> (r: HpxMoc)
    requires
        depth <= 29,
    ensures
        moc_depth(r) == depth,
        moc_ranges(r) == rs@,
{
    let ranges = rs.into_iter().map(|(s, e)| s..e).collect();
    HpxMoc { inner: RangeMOC::new(depth, moc::elemset::range::MocRanges::new_unchecked(ranges)) }
}

// ---------------------------------------------------------------------------
// The index.

/// Why a request on an index is refused.
#[derive(Debug, Clone, Copy, PartialEq, Eq, Structural)]
pub enum IndexError {
    /// The depth is above 29.
    DepthOutOfRange,
    /// A cell id is not below `12 * 4^depth`.
    CellOutOfRange,
    /// A selection with a step other than 1, or by a list of positions.
    UnsupportedSelection,
}

/// The single range that covers the whole domain.
pub open spec fn full_ranges() -> Seq<(u64, u64)> {
    seq![(0u64, 0x3000_0000_0000_0000u64)]
}

/// The whole-domain range is well formed at every depth, covers every cell,
/// and flattens to `0, 1, ..., 12 * 4^d - 1`.
pub proof fn lemma_full_ranges(d: nat)
    requires
        d <= 29,
    ensures
        ranges_wf(full_ranges(), d),
        cells_of(full_ranges(), d) == all_cells(d),
        flatten(full_ranges(), d) == interval(0, n_cells(d)),
{
    let rs = full_ranges();
    let u = unit(d);
    lemma_domain_split(d);
    let n = n_cells(d);
    assert((n * u) % u == 0) by (nonlinear_arith)
        requires
            u >= 1,
    ;
    assert(0nat % u == 0) by (nonlinear_arith)
        requires
            u >= 1,
    ;
    assert(range_ok(rs[0], d));
    assert forall|c: u64| cells_of(rs, d).contains(c) <==> all_cells(d).contains(c) by {
        if (c as nat) < n {
            assert(c * u < n * u) by (nonlinear_arith)
                requires
                    (c as nat) < n,
                    u >= 1,
            ;
            assert(rs[0].0 <= c * u < rs[0].1);
        }
    }
    assert(cells_of(rs, d) =~= all_cells(d));
    assert(rs.drop_last() =~= Seq::<(u64, u64)>::empty());
    assert((n * u) / u == n) by (nonlinear_arith)
        requires
            u >= 1,
    ;
    assert(0nat / u == 0) by (nonlinear_arith)
        requires
            u >= 1,
    ;
    assert(flatten(rs.drop_last(), d) == Seq::<u64>::empty());
    assert(rs.last() == (0u64, 0x3000_0000_0000_0000u64));
    assert(flatten(rs, d) == Seq::<u64>::empty() + interval(0, n));
    assert(Seq::<u64>::empty() + interval(0, n) =~= interval(0, n));
}

/// What to select from an index: a slice of positions, or a list of them.
pub enum OffsetIndex {
    Slice(Slice),
    Positions(Vec<u64>),
}

/// A selection the index can serve: a slice whose step is 1 or left out.
pub open spec fn selectable(index: OffsetIndex) -> bool {
    match index {
        OffsetIndex::Slice(s) => s.step == None::<isize> || s.step == Some(1isize),
        OffsetIndex::Positions(_) => false,
    }
}

/// The positions `[a, b)` a selectable slice picks among `len`, clamped so
/// that `a <= b`.
pub open spec fn slice_window(index: OffsetIndex, len: int) -> (int, int) {
    match index {
        OffsetIndex::Slice(s) => {
            let t = resolve_spec(s, len);
            (t.0, if t.1 < t.0 { t.0 } else { t.1 })
        },
        OffsetIndex::Positions(_) => (0, 0),
    }
}

/// Resolves one bound of a step-1 slice over `len` positions.
fn resolve_position(v: Option<isize>, len: u64, default: u64) -> (r: u64)
    requires
        default <= len,
    ensures
        r as int == match v {
            Some(x) => resolve_bound(x as int, len as int, 0, len as int),
            None => default as int,
        },
        r <= len,
{
    match v {
        None => default,
        Some(x) => {
            let w: i128 = if x < 0 { x as i128 + len as i128 } else { x as i128 };
            if w < 0 {
                0
            } else if w > len as i128 {
                len
            } else {
                w as u64
            }
        },
    }
}

/// A range-coded index of nested cell ids, all at one depth.
pub struct RangeMOCIndex {
    moc: HpxMoc,
}

impl RangeMOCIndex {
    /// The ranges are sorted, coalesced and aligned on the index depth.
    pub closed spec fn well_formed(&self) -> bool {
        moc_wf(self.moc)
    }

    /// The depth of every cell in the index.
    pub closed spec fn depth_spec(&self) -> nat {
        moc_depth(self.moc) as nat
    }

    /// The cells the index covers.
    pub closed spec fn cells(&self) -> Set<u64> {
        cells_of(moc_ranges(self.moc), self.depth_spec())
    }

    /// The cells the index covers, in increasing order.
    pub closed spec fn cell_seq(&self) -> Seq<u64> {
        flatten(moc_ranges(self.moc), self.depth_spec())
    }

    /// How many ranges the index stores.
    pub closed spec fn n_ranges(&self) -> nat {
        moc_ranges(self.moc).len()
    }

    /// The ordered cells are the covered cells, each once.
    pub proof fn lemma_cell_seq(&self)
        requires
            self.well_formed(),
        ensures
            strictly_increasing(self.cell_seq()),
            self.cell_seq().to_set() == self.cells(),
            self.cell_seq().len() == self.cells().len(),
            self.cells().finite(),
    {
        lemma_flatten(moc_ranges(self.moc), self.depth_spec());
        lemma_flatten_set(moc_ranges(self.moc), self.depth_spec());
    }

    /// The index stores one range per maximal run of consecutive cells, so
    /// its size in bytes depends on its cells alone.
    pub proof fn lemma_range_count(&self)
        requires
            self.well_formed(),
        ensures
            self.n_ranges() == runs(self.cell_seq()),
    {
        lemma_ranges_are_runs(moc_ranges(self.moc), self.depth_spec());
    }

    /// A well-formed index is at a depth of at most 29 and holds cells of
    /// that depth only, at most `12 * 4^depth` of them.
    pub proof fn lemma_well_formed_bounds(&self)
        requires
            self.well_formed(),
        ensures
            self.depth_spec() <= 29,
            self.cells().subset_of(all_cells(self.depth_spec())),
            self.cell_seq().len() <= n_cells(self.depth_spec()),
            self.cell_seq().len() <= 0x3000_0000_0000_0000,
    {
        let d = self.depth_spec();
        self.lemma_cell_seq();
        lemma_full_ranges(d);
        lemma_flatten_set(full_ranges(), d);
        lemma_domain_split(d);
        assert(all_cells(d) == cells_of(full_ranges(), d));
        vstd::set_lib::lemma_len_subset(self.cells(), all_cells(d));
        assert(n_cells(d) <= n_cells(29)) by (nonlinear_arith)
            requires
                n_cells(29) == n_cells(d) * unit(d),
                unit(d) >= 1,
        ;
    }

    /// The index of every cell at `depth`.
    pub fn full_domain(depth: u8) -> (r: Result<Self, IndexError>)
        ensures
            r.is_ok() <==> depth <= 29,
            r matches Err(e) ==> e == IndexError::DepthOutOfRange,
            r matches Ok(m) ==> {
                &&& m.well_formed()
                &&& m.depth_spec() == depth
                &&& m.cells() == all_cells(depth as nat)
                &&& m.cell_seq() == interval(0, n_cells(depth as nat))
                &&& m.n_ranges() == 1
            },
    {
        if depth > 29 {
            return Err(IndexError::DepthOutOfRange);
        }
        let moc = moc_full_domain(depth);
        proof {
            lemma_full_ranges(depth as nat);
        }
        Ok(RangeMOCIndex { moc })
    }

    /// The index of the given cells at `depth`; the ids may repeat and come
    /// in any order.
    pub fn from_cell_ids(depth: u8, ids: &Vec<u64>) -> (r: Result<Self, IndexError>)
        ensures
            r.is_ok() <==> depth <= 29 && forall|i: int|
                0 <= i < ids.len() ==> (#[trigger] ids[i] as nat) < n_cells(depth as nat),
            r matches Err(e) ==> e == (if depth > 29 {
                IndexError::DepthOutOfRange
            } else {
                IndexError::CellOutOfRange
            }),
            r matches Ok(m) ==> {
                &&& m.well_formed()
                &&& m.depth_spec() == depth
                &&& m.cells() == ids@.to_set()
            },
    {
        if depth > 29 {
            return Err(IndexError::DepthOutOfRange);
        }
        let n = cell_count(depth);
        let mut i: usize = 0;
        while i < ids.len()
            invariant
                i <= ids.len(),
                depth <= 29,
                n as nat == n_cells(depth as nat),
                forall|k: int| 0 <= k < i ==> (#[trigger] ids[k] as nat) < n_cells(depth as nat),
            decreases ids.len() - i,
        {
            if ids[i] >= n {
                return Err(IndexError::CellOutOfRange);
            }
            i = i + 1;
        }
        let moc = moc_from_cells(depth, ids);
        Ok(RangeMOCIndex { moc })
    }

    /// The cells of either index.
    pub fn union(&self, other: &RangeMOCIndex) -> (r: RangeMOCIndex)
        requires
            self.well_formed(),
            other.well_formed(),
            self.depth_spec() == other.depth_spec(),
        ensures
            r.well_formed(),
            r.depth_spec() == self.depth_spec(),
            r.cells() == self.cells().union(other.cells()),
    {
        let moc = moc_union(&self.moc, &other.moc);
        let r = RangeMOCIndex { moc };
        assert(r.cells() =~= self.cells().union(other.cells()));
        r
    }

    /// The cells of both indexes.
    pub fn intersection(&self, other: &RangeMOCIndex) -> (r: RangeMOCIndex)
        requires
            self.well_formed(),
            other.well_formed(),
            self.depth_spec() == other.depth_spec(),
        ensures
            r.well_formed(),
            r.depth_spec() == self.depth_spec(),
            r.cells() == self.cells().intersect(other.cells()),
    {
        let moc = moc_intersection(&self.moc, &other.moc);
        let r = RangeMOCIndex { moc };
        assert(r.cells() =~= self.cells().intersect(other.cells()));
        r
    }

    /// Bytes the ranges take: two 64-bit bounds each (saturated at
    /// `u64::MAX`).
    pub fn nbytes(&self) -> (r: u64)
        ensures
            self.well_formed() ==> self.n_ranges() == runs(self.cell_seq()),
            r == (if 16 * self.n_ranges() <= u64::MAX {
                16 * self.n_ranges()
            } else {
                u64::MAX as nat
            }),
    {
        proof {
            if self.well_formed() {
                self.lemma_range_count();
            }
        }
        let n = moc_len(&self.moc) as u64;
        if n <= u64::MAX / 16 {
            n * 16
        } else {
            u64::MAX
        }
    }

    /// The number of cells in the index.
    pub fn size(&self) -> (r: u64)
        requires
            self.well_formed(),
        ensures
            r == self.cells().len(),
            r == self.cell_seq().len(),
    {
        let r = moc_n_cells(&self.moc);
        proof {
            let rs = moc_ranges(self.moc);
            let d = self.depth_spec();
            lemma_flatten(rs, d);
            lemma_flatten_set(rs, d);
            lemma_domain_split(d);
            let len = flatten(rs, d).len();
            assert((len * unit(d)) / unit(d) == len) by (nonlinear_arith)
                requires
                    unit(d) >= 1,
            ;
        }
        r
    }

    /// The depth of the cells.
    pub fn depth(&self) -> (r: u8)
        ensures
            r == self.depth_spec(),
    {
        moc_depth_max(&self.moc)
    }

    /// The cells at positions `start..stop` of the ordered cells, as a new
    /// index at the same depth. Works range by range.
    pub fn select(&self, start: u64, stop: u64) -> (r: RangeMOCIndex)
        requires
            self.well_formed(),
            start <= stop <= self.cell_seq().len(),
        ensures
            r.well_formed(),
            r.depth_spec() == self.depth_spec(),
            r.cell_seq() == self.cell_seq().subrange(start as int, stop as int),
    {
        let depth = moc_depth_max(&self.moc);
        let u = unit_count(depth);
        let rs = moc_range_pairs(&self.moc);
        let ghost d = depth as nat;
        proof {
            lemma_domain_split(d);
        }
        let mut out: Vec<(u64, u64)> = Vec::new();
        let mut pos: u64 = 0;
        let mut k: usize = 0;
        proof {
            assert(rs@.take(0) =~= Seq::<(u64, u64)>::empty());
            assert(out@ =~= Seq::<(u64, u64)>::empty());
        }
        while k < rs.len()
            invariant
                k <= rs.len(),
                rs@ == moc_ranges(self.moc),
                d == self.depth_spec(),
                d == depth as nat,
                ranges_wf(rs@, d),
                u as nat == unit(d),
                unit(d) >= 1,
                n_cells(29) == 0x3000_0000_0000_0000,
                start <= stop <= flatten(rs@, d).len(),
                pos as nat == flatten(rs@.take(k as int), d).len(),
                ranges_wf(out@, d),
                flatten(out@, d) == flatten(rs@.take(k as int), d).subrange(
                    if start < pos { start as int } else { pos as int },
                    if stop < pos { stop as int } else { pos as int },
                ),
                out@.len() > 0 ==> k > 0 && out@.last().1 <= rs@[k - 1].1,
            decreases rs.len() - k,
        {
            let ghost f = flatten(rs@.take(k as int), d);
            let (s, e) = rs[k];
            proof {
                assert(range_ok(rs@[k as int], d));
                lemma_flatten_take_step(rs@, d, k as int);
                lemma_wf_take(rs@, d, k as int + 1);
                lemma_flatten(rs@.take(k as int + 1), d);
                lemma_range_sum_bound(rs@.take(k as int + 1), d);
                assert(rs@.take(k as int + 1).last() == rs@[k as int]);
            }
            let n = (e - s) / u;
            let ghost a = s as nat / unit(d);
            let ghost b = e as nat / unit(d);
            proof {
                assert(s as nat == a * unit(d)) by (nonlinear_arith)
                    requires
                        s as nat % unit(d) == 0,
                        unit(d) >= 1,
                        a == s as nat / unit(d),
                ;
                assert(e as nat == b * unit(d)) by (nonlinear_arith)
                    requires
                        e as nat % unit(d) == 0,
                        unit(d) >= 1,
                        b == e as nat / unit(d),
                ;
                assert((e - s) as nat == (b - a) * unit(d) && a < b) by (nonlinear_arith)
                    requires
                        s as nat == a * unit(d),
                        e as nat == b * unit(d),
                        s < e,
                        unit(d) >= 1,
                ;
                assert(n as nat == b - a) by (nonlinear_arith)
                    requires
                        (e - s) as nat == (b - a) * unit(d),
                        n as nat == (e - s) as nat / unit(d),
                        unit(d) >= 1,
                        a < b,
                ;
                let g = interval(a, b);
                assert(flatten(rs@.take(k as int + 1), d) == f + g);
                assert((pos + n) * unit(d) <= e) by (nonlinear_arith)
                    requires
                        (pos + n) == (f + g).len(),
                        (f + g).len() * unit(d) == range_sum(rs@.take(k as int + 1)),
                        range_sum(rs@.take(k as int + 1)) <= e,
                ;
                assert(pos + n <= e) by (nonlinear_arith)
                    requires
                        (pos + n) * unit(d) <= e,
                        unit(d) >= 1,
                ;
                lemma_window_concat(f, g, start as int, stop as int);
            }
            let lo = if start < pos { pos } else { start };
            let hi = if stop < pos + n { stop } else { pos + n };
            if lo < hi {
                proof {
                    assert(((lo - pos) * u) as nat <= (e - s) as nat) by (nonlinear_arith)
                        requires
                            pos <= lo,
                            lo - pos < n,
                            u >= 1,
                            (e - s) as nat == n * u,
                    ;
                    assert(((hi - pos) * u) as nat <= (e - s) as nat) by (nonlinear_arith)
                        requires
                            pos <= hi,
                            hi - pos <= n,
                            u >= 1,
                            (e - s) as nat == n * u,
                    ;
                }
                let ns = s + (lo - pos) * u;
                let ne = s + (hi - pos) * u;
                proof {
                    let x = (lo - pos) as nat;
                    let y = (hi - pos) as nat;
                    assert(ns as nat == (a + x) * unit(d) && ne as nat == (a + y) * unit(d))
                        by (nonlinear_arith)
                        requires
                            ns as nat == s as nat + x * unit(d),
                            ne as nat == s as nat + y * unit(d),
                            s as nat == a * unit(d),
                    ;
                    assert(ns as nat / unit(d) == a + x && ns as nat % unit(d) == 0) by (nonlinear_arith)
                        requires
                            ns as nat == (a + x) * unit(d),
                            unit(d) >= 1,
                    ;
                    assert(ne as nat / unit(d) == a + y && ne as nat % unit(d) == 0) by (nonlinear_arith)
                        requires
                            ne as nat == (a + y) * unit(d),
                            unit(d) >= 1,
                    ;
                    assert(ns < ne) by (nonlinear_arith)
                        requires
                            ns as nat == (a + x) * unit(d),
                            ne as nat == (a + y) * unit(d),
                            x < y,
                            unit(d) >= 1,
                    ;
                    lemma_interval_window(a, b, x as int, y as int);
                    lemma_flatten_push(out@, d, (ns, ne));
                    let o2 = out@.push((ns, ne));
                    assert(range_ok(o2[o2.len() - 1], d));
                    assert forall|i: int| 0 <= i < o2.len() implies range_ok(#[trigger] o2[i], d) by {
                        if i < out@.len() {
                            assert(o2[i] == out@[i]);
                        }
                    }
                    assert forall|i: int, j: int| 0 <= i < j < o2.len() implies #[trigger] o2[i].1
                        < #[trigger] o2[j].0 by {
                        if j < out@.len() {
                            assert(o2[i] == out@[i] && o2[j] == out@[j]);
                        } else {
                            assert(o2[i] == out@[i]);
                            assert(out@.last() == out@[out@.len() - 1]);
                            assert(range_ok(out@[i], d));
                            assert(rs@[k - 1].1 < rs@[k as int].0);
                            if i < out@.len() - 1 {
                                assert(out@[i].1 < out@[out@.len() - 1].0);
                                assert(range_ok(out@[out@.len() - 1], d));
                            }
                        }
                    }
                }
                out.push((ns, ne));
            }
            pos = pos + n;
            k = k + 1;
        }
        proof {
            assert(rs@.take(rs@.len() as int) =~= rs@);
        }
        let moc = moc_from_range_pairs(depth, out);
        RangeMOCIndex { moc }
    }

    /// Sub-selection by position: a slice with step 1 (or none) selects the
    /// cells at the positions it resolves to; any other step, or a list of
    /// positions, is refused.
    pub fn isel(&self, index: &OffsetIndex) -> (r: Result<RangeMOCIndex, IndexError>)
        requires
            self.well_formed(),
        ensures
            !selectable(*index) ==> r == Err::<RangeMOCIndex, IndexError>(
                IndexError::UnsupportedSelection,
            ),
            selectable(*index) ==> r.is_ok(),
            r matches Ok(m) ==> {
                let (a, b) = slice_window(*index, self.cell_seq().len() as int);
                &&& m.well_formed()
                &&& m.depth_spec() == self.depth_spec()
                &&& m.cell_seq() == self.cell_seq().subrange(a, b)
            },
            r matches Err(e) ==> e == IndexError::UnsupportedSelection,
    {
        match index {
            OffsetIndex::Positions(_) => Err(IndexError::UnsupportedSelection),
            OffsetIndex::Slice(sl) => {
                match sl.step {
                    Some(v) => {
                        if v != 1 {
                            return Err(IndexError::UnsupportedSelection);
                        }
                    },
                    None => {},
                }
                let n = self.size();
                let start = resolve_position(sl.start, n, 0);
                let end = resolve_position(sl.stop, n, n);
                let stop = if end < start { start } else { end };
                Ok(self.select(start, stop))
            },
        }
    }

    /// The cells, in increasing order.
    pub fn cell_ids(&self) -> (r: Vec<u64>)
        requires
            self.well_formed(),
        ensures
            r@ == self.cell_seq(),
            strictly_increasing(r@),
            r@.to_set() == self.cells(),
    {
        let r = moc_flatten(&self.moc);
        proof {
            self.lemma_cell_seq();
        }
        r
    }
}

/// The cells on the inner edge of the region the ids cover: those with a
/// neighbour outside it, as the tiling decides, in increasing order.
pub fn internal_boundary(depth: u8, ids: &Vec<u64>) -> (r: Result<Vec<u64>, IndexError>)
    ensures
        r.is_ok() <==> depth <= 29 && forall|i: int|
            0 <= i < ids.len() ==> (#[trigger] ids[i] as nat) < n_cells(depth as nat),
        r matches Err(e) ==> e == (if depth > 29 {
            IndexError::DepthOutOfRange
        } else {
            IndexError::CellOutOfRange
        }),
        r matches Ok(v) ==> strictly_increasing(v@) && forall|k: int|
            0 <= k < v.len() ==> ids@.contains(#[trigger] v[k]),
        r matches Ok(v) ==> v@.to_set() == internal_border_of(depth, ids@.to_set()),
        r matches Ok(v) ==> (ids@.to_set() == all_cells(depth as nat) ==> v.len() == 0),
{
    let index = match RangeMOCIndex::from_cell_ids(depth, ids) {
        Ok(m) => m,
        Err(e) => {
            return Err(e);
        },
    };
    let border = moc_internal_border(&index.moc);
    let v = moc_flatten(&border);
    proof {
        let d = depth as nat;
        lemma_flatten(moc_ranges(border), d);
        lemma_domain_split(d);
        assert forall|k: int| 0 <= k < v.len() implies ids@.contains(#[trigger] v[k]) by {
            assert(covers(moc_ranges(border), v@[k] * unit(d)));
            assert(index.cells().contains(v@[k]));
        }
        lemma_flatten_set(moc_ranges(border), d);
        if moc_ranges(border).len() == 0 {
            assert(flatten(moc_ranges(border), d) == Seq::<u64>::empty());
        }
    }
    Ok(v)
}

// ---------------------------------------------------------------------------
// Laws.

/// Sub-selection: the slice `i..j` with step 1 selects positions `i..j` of
/// the ordered cells whenever `0 <= i <= j <= len`.
pub proof fn lemma_select_window(i: isize, j: isize, len: nat)
    requires
        0 <= i <= j <= len,
    ensures
        selectable(OffsetIndex::Slice((Slice { start: Some(i), stop: Some(j), step: Some(1isize) }))),
        slice_window(
            OffsetIndex::Slice((Slice { start: Some(i), stop: Some(j), step: Some(1isize) })),
            len as int,
        ) == (i as int, j as int),
{
}

/// Two strictly increasing sequences with the same elements are equal.
pub proof fn lemma_sorted_unique(s1: Seq<u64>, s2: Seq<u64>)
    requires
        strictly_increasing(s1),
        strictly_increasing(s2),
        s1.to_set() == s2.to_set(),
    ensures
        s1 == s2,
    decreases s1.len(),
{
    if s1.len() == 0 {
        if s2.len() > 0 {
            assert(s2.to_set().contains(s2[0]));
        }
        assert(s1 =~= s2);
    } else {
        assert(s1.to_set().contains(s1[0]));
        assert(s2.len() > 0);
        assert(s2.to_set().contains(s2[0]));
        let j = choose|j: int| 0 <= j < s2.len() && s2[j] == s1[0];
        let i = choose|i: int| 0 <= i < s1.len() && s1[i] == s2[0];
        if j > 0 {
            assert(s2[0] < s2[j]);
        }
        if i > 0 {
            assert(s1[0] < s1[i]);
        }
        assert(s1[0] == s2[0]);
        let t1 = s1.drop_first();
        let t2 = s2.drop_first();
        assert forall|x: u64| t1.to_set().contains(x) <==> t2.to_set().contains(x) by {
            if t1.to_set().contains(x) {
                let k = choose|k: int| 0 <= k < t1.len() && t1[k] == x;
                assert(s1[k + 1] == x);
                assert(s1[0] < s1[k + 1]);
                assert(s2.to_set().contains(x));
                let m = choose|m: int| 0 <= m < s2.len() && s2[m] == x;
                assert(m != 0);
                assert(t2[m - 1] == x);
            }
            if t2.to_set().contains(x) {
                let k = choose|k: int| 0 <= k < t2.len() && t2[k] == x;
                assert(s2[k + 1] == x);
                assert(s2[0] < s2[k + 1]);
                assert(s1.to_set().contains(x));
                let m = choose|m: int| 0 <= m < s1.len() && s1[m] == x;
                assert(m != 0);
                assert(t1[m - 1] == x);
            }
        }
        assert(t1.to_set() =~= t2.to_set());
        lemma_sorted_unique(t1, t2);
        assert forall|i: int| 0 <= i < s1.len() implies s1[i] == s2[i] by {
            if i > 0 {
                assert(s1[i] == t1[i - 1]);
                assert(s2[i] == t2[i - 1]);
            }
        }
        assert(s1 =~= s2);
    }
}

/// Two well-formed indexes at one depth with the same cells list the same
/// cell ids.
pub proof fn lemma_same_cells_same_ids(x: RangeMOCIndex, y: RangeMOCIndex)
    requires
        x.well_formed(),
        y.well_formed(),
        x.cells() == y.cells(),
    ensures
        x.cell_seq() == y.cell_seq(),
{
    x.lemma_cell_seq();
    y.lemma_cell_seq();
    lemma_sorted_unique(x.cell_seq(), y.cell_seq());
}

/// The whole domain at `depth` holds `12 * 4^depth` cells.
pub proof fn lemma_full_domain_size(depth: u8)
    requires
        depth <= 29,
    ensures
        all_cells(depth as nat).len() == n_cells(depth as nat),
{
    lemma_full_ranges(depth as nat);
    lemma_flatten_set(full_ranges(), depth as nat);
}

/// An index built from a list of ids counts each distinct id once.
pub proof fn lemma_size_counts_distinct_ids(m: RangeMOCIndex, ids: Seq<u64>)
    requires
        m.well_formed(),
        m.cells() == ids.to_set(),
    ensures
        m.cell_seq().len() == ids.to_set().len(),
{
    m.lemma_cell_seq();
}

/// The union of indexes built from `a` and from `b` is the index built from
/// both lists; the union of an index with itself is that index.
pub proof fn lemma_union_of_cell_ids(
    x: RangeMOCIndex,
    y: RangeMOCIndex,
    u: RangeMOCIndex,
    z: RangeMOCIndex,
    a: Seq<u64>,
    b: Seq<u64>,
)
    requires
        x.well_formed(),
        y.well_formed(),
        u.well_formed(),
        z.well_formed(),
        x.cells() == a.to_set(),
        y.cells() == b.to_set(),
        u.cells() == x.cells().union(y.cells()),
        z.cells() == (a + b).to_set(),
    ensures
        u.cells() == z.cells(),
        u.cell_seq() == z.cell_seq(),
{
    assert forall|v: u64| (a + b).to_set().contains(v) <==> a.to_set().contains(v) || b.to_set().contains(v) by {
        if (a + b).to_set().contains(v) {
            let k = choose|k: int| 0 <= k < (a + b).len() && (a + b)[k] == v;
            if k < a.len() {
                assert(a[k] == v);
            } else {
                assert(b[k - a.len()] == v);
            }
        }
        if a.to_set().contains(v) {
            let k = choose|k: int| 0 <= k < a.len() && a[k] == v;
            assert((a + b)[k] == v);
        }
        if b.to_set().contains(v) {
            let k = choose|k: int| 0 <= k < b.len() && b[k] == v;
            assert((a + b)[a.len() + k] == v);
        }
    }
    assert(u.cells() =~= z.cells());
    lemma_same_cells_same_ids(u, z);
}

/// The union of an index with itself lists the same cells.
pub proof fn lemma_union_idempotent(x: RangeMOCIndex, u: RangeMOCIndex)
    requires
        x.well_formed(),
        u.well_formed(),
        u.cells() == x.cells().union(x.cells()),
    ensures
        u.cells() == x.cells(),
        u.cell_seq() == x.cell_seq(),
{
    assert(u.cells() =~= x.cells());
    lemma_same_cells_same_ids(u, x);
}

/// Intersecting with the whole domain at the index depth changes nothing.
pub proof fn lemma_intersection_with_full_domain(x: RangeMOCIndex, f: RangeMOCIndex, u: RangeMOCIndex)
    requires
        x.well_formed(),
        u.well_formed(),
        f.cells() == all_cells(x.depth_spec()),
        u.cells() == x.cells().intersect(f.cells()),
    ensures
        u.cell_seq() == x.cell_seq(),
{
    assert(u.cells() =~= x.cells());
    lemma_same_cells_same_ids(u, x);
}

/// The intersection of indexes built from `a` and from `b` is the index
/// built from the ids of `a` that `b` holds; for disjoint lists it is empty.
pub proof fn lemma_intersection_of_cell_ids(
    x: RangeMOCIndex,
    y: RangeMOCIndex,
    u: RangeMOCIndex,
    z: RangeMOCIndex,
    a: Seq<u64>,
    b: Seq<u64>,
)
    requires
        x.well_formed(),
        y.well_formed(),
        u.well_formed(),
        z.well_formed(),
        x.cells() == a.to_set(),
        y.cells() == b.to_set(),
        u.cells() == x.cells().intersect(y.cells()),
        z.cells() == a.filter(|v: u64| b.contains(v)).to_set(),
    ensures
        u.cells() == z.cells(),
        u.cell_seq() == z.cell_seq(),
        (forall|v: u64| !(a.contains(v) && b.contains(v))) ==> u.cell_seq().len() == 0,
{
    let p = |v: u64| b.contains(v);
    let f = a.filter(p);
    assert forall|v: u64| f.to_set().contains(v) <==> a.to_set().contains(v) && b.to_set().contains(v) by {
        broadcast use vstd::seq_lib::group_filter_ensures;

        if f.contains(v) {
            a.lemma_filter_contains_rev(p, v);
            let k = choose|k: int| 0 <= k < f.len() && f[k] == v;
            assert(p(f[k]));
        }
        if a.contains(v) && b.contains(v) {
            let k = choose|k: int| 0 <= k < a.len() && a[k] == v;
            assert(p(a[k]));
            assert(f.contains(a[k]));
        }
    }
    assert(u.cells() =~= z.cells());
    lemma_same_cells_same_ids(u, z);
    u.lemma_cell_seq();
    if forall|v: u64| !(a.contains(v) && b.contains(v)) {
        assert(u.cells() =~= Set::<u64>::empty());
    }
}

} // verus!
