//! Moving between depths in the nested scheme, and neighbourhoods.
//!
//! In the nested scheme the four children of cell `c` are `4c .. 4c + 4`, so
//! a cell's ancestor `k` levels up is `c / 4^k` and its descendants `k`
//! levels down are `c * 4^k .. (c + 1) * 4^k`.

use vstd::prelude::*;
use crate::zuniq::{pow4, n_cells, valid_cell, lemma_pow4_add, lemma_pow4_positive, lemma_pow4_monotone, lemma_pow4_values, cell_count};

verus! {

/// Why a hierarchy request is refused.
#[derive(Debug, Clone, Copy, PartialEq, Eq, Structural)]
pub enum HierarchyError {
    /// A depth is above 29.
    DepthOutOfRange,
    /// A cell id is not below `12 * 4^depth`.
    CellOutOfRange,
    /// An output buffer does not have the length the request needs.
    OutputLength,
    /// The neighbourhood radius is `2^depth` or more.
    RadiusTooLarge,
    /// Ring ids are converted only up to `RING_DEPTH_MAX`.
    RingDepthUnsupported,
}

/// `4^n`, computed.
pub fn pow4_exec(n: u8) -> (r: u64)
    requires
        n <= 29,
    ensures
        r as nat == pow4(n as nat),
{
    let mut r: u64 = 1;
    let mut i: u8 = 0;
    while i < n
        invariant
            i <= n <= 29,
            r as nat == pow4(i as nat),
        decreases n - i,
    {
        proof {
            lemma_pow4_monotone((i + 1) as nat, 29);
            lemma_pow4_values();
            assert(pow4((i + 1) as nat) == 4 * pow4(i as nat));
        }
        r = r * 4;
        i = i + 1;
    }
    r
}

/// The ancestor of `cell` at `new_depth`.
pub open spec fn parent_spec(depth: nat, cell: nat, new_depth: nat) -> nat {
    cell / pow4((depth - new_depth) as nat)
}

/// The descendants of `cell` at `new_depth`, in order.
pub open spec fn children_spec(depth: nat, cell: nat, new_depth: nat) -> Seq<u64> {
    let f = pow4((new_depth - depth) as nat);
    Seq::new(f, |k: int| (cell * f + k) as u64)
}

/// The cells sharing `cell`'s parent (all twelve base cells at depth 0).
pub open spec fn siblings_spec(depth: nat, cell: nat) -> Seq<u64> {
    if depth == 0 {
        Seq::new(12, |k: int| k as u64)
    } else {
        Seq::new(4, |k: int| ((cell / 4) * 4 + k) as u64)
    }
}

/// The ancestor of a cell at a shallower (or equal) depth.
pub fn parent(depth: u8, cell: u64, new_depth: u8) -> (r: u64)
    requires
        new_depth <= depth <= 29,
    ensures
        r as nat == parent_spec(depth as nat, cell as nat, new_depth as nat),
        valid_cell(depth as nat, cell as nat) ==> valid_cell(new_depth as nat, r as nat),
{
    let f = pow4_exec(depth - new_depth);
    proof {
        lemma_pow4_positive((depth - new_depth) as nat);
        if valid_cell(depth as nat, cell as nat) {
            lemma_pow4_add(new_depth as nat, (depth - new_depth) as nat);
            let p = pow4(new_depth as nat);
            assert((cell as nat) / (f as nat) < 12 * p) by (nonlinear_arith)
                requires
                    (cell as nat) < 12 * (p * f),
                    f >= 1,
            ;
        }
    }
    cell / f
}

/// The descendants of a cell at a deeper (or equal) depth, in order.
pub fn children(depth: u8, cell: u64, new_depth: u8) -> (r: Vec<u64>)
    requires
        depth <= new_depth <= 29,
        valid_cell(depth as nat, cell as nat),
    ensures
        r@ == children_spec(depth as nat, cell as nat, new_depth as nat),
        forall|k: int| 0 <= k < r.len() ==> valid_cell(new_depth as nat, #[trigger] r[k] as nat),
{
    let f = pow4_exec(new_depth - depth);
    let ghost fd = f as nat;
    proof {
        lemma_pow4_positive((new_depth - depth) as nat);
        lemma_pow4_add(depth as nat, (new_depth - depth) as nat);
        lemma_pow4_monotone(new_depth as nat, 29);
        lemma_pow4_values();
        assert(((cell as nat) + 1) * fd <= 12 * pow4(new_depth as nat)) by (nonlinear_arith)
            requires
                (cell as nat) + 1 <= 12 * pow4(depth as nat),
                pow4(new_depth as nat) == pow4(depth as nat) * fd,
        ;
        assert(((cell as nat) + 1) * fd == (cell as nat) * fd + fd) by (nonlinear_arith);
    }
    let first = cell * f;
    let mut r: Vec<u64> = Vec::new();
    let mut k: u64 = 0;
    while k < f
        invariant
            k <= f,
            depth <= new_depth <= 29,
            f as nat == fd,
            fd == pow4((new_depth - depth) as nat),
            first as nat == (cell as nat) * fd,
            (first as nat) + fd <= 12 * pow4(new_depth as nat),
            pow4(new_depth as nat) <= 0x0400_0000_0000_0000,
            r@ == children_spec(depth as nat, cell as nat, new_depth as nat).take(k as int),
        decreases f - k,
    {
        let ghost old_r = r@;
        r.push(first + k);
        proof {
            let c = children_spec(depth as nat, cell as nat, new_depth as nat);
            assert(c[k as int] == ((cell as nat) * fd + k) as u64);
            assert(r@[k as int] == c[k as int]);
            assert forall|i: int| 0 <= i < k implies r@[i] == c.take(k + 1)[i] by {
                assert(r@[i] == old_r[i]);
            }
            assert(r@ =~= c.take(k + 1));
        }
        k = k + 1;
    }
    proof {
        assert(r@ =~= children_spec(depth as nat, cell as nat, new_depth as nat));
    }
    r
}

/// The cells sharing a cell's parent, the cell included.
pub fn siblings(depth: u8, cell: u64) -> (r: Vec<u64>)
    requires
        valid_cell(depth as nat, cell as nat),
    ensures
        r@ == siblings_spec(depth as nat, cell as nat),
{
    proof {
        lemma_pow4_monotone(depth as nat, 29);
        lemma_pow4_values();
    }
    let (first, count): (u64, u64) = if depth == 0 { (0, 12) } else { ((cell / 4) * 4, 4) };
    let mut r: Vec<u64> = Vec::new();
    let mut k: u64 = 0;
    while k < count
        invariant
            k <= count,
            count == (if depth == 0 { 12u64 } else { 4u64 }),
            first == (if depth == 0 { 0 } else { (cell / 4) * 4 }),
            (first as nat) + (count as nat) <= 0xffff_ffff_ffff_ffff,
            r@ == siblings_spec(depth as nat, cell as nat).take(k as int),
        decreases count - k,
    {
        r.push(first + k);
        proof {
            assert(r@ =~= siblings_spec(depth as nat, cell as nat).take(k + 1));
        }
        k = k + 1;
    }
    proof {
        assert(r@ =~= siblings_spec(depth as nat, cell as nat));
    }
    r
}

/// Copies `row` into `out` from position `offset` on, leaving the rest.
pub fn write_row<T: Copy>(out: &mut Vec<T>, offset: usize, row: &Vec<T>)
    requires
        offset + row.len() <= old(out).len(),
    ensures
        final(out).len() == old(out).len(),
        forall|k: int| 0 <= k < row.len() ==> #[trigger] final(out)[offset + k] == row[k],
        forall|j: int|
            0 <= j < old(out).len() && !(offset <= j < offset + row.len()) ==> #[trigger] final(out)[j] == old(out)[j],
{
    let mut k: usize = 0;
    while k < row.len()
        invariant
            k <= row.len(),
            offset + row.len() <= out.len(),
            out.len() == old(out).len(),
            forall|i: int| 0 <= i < k ==> #[trigger] out[offset + i] == row[i],
            forall|j: int|
                0 <= j < old(out).len() && !(offset <= j < offset + k) ==> #[trigger] out[j] == old(out)[j],
        decreases row.len() - k,
    {
        out.set(offset + k, row[k]);
        k = k + 1;
    }
}

/// Cells per output row of a zoom from `depth` to `new_depth`.
pub open spec fn zoom_width(depth: nat, new_depth: nat) -> nat {
    if new_depth > depth {
        pow4((new_depth - depth) as nat)
    } else {
        1
    }
}

/// The row a zoom gives for one cell: the cell, its ancestor, or its
/// descendants.
pub open spec fn zoom_row(depth: nat, cell: nat, new_depth: nat) -> Seq<u64> {
    if new_depth > depth {
        children_spec(depth, cell, new_depth)
    } else {
        seq![parent_spec(depth, cell, new_depth) as u64]
    }
}

/// Every id names a cell at `depth`.
pub open spec fn all_valid(depth: nat, cells: Seq<u64>) -> bool {
    forall|i: int| 0 <= i < cells.len() ==> valid_cell(depth, #[trigger] cells[i] as nat)
}

proof fn lemma_row_bounds(i: int, k: int, w: int, n: int)
    requires
        0 <= i < n,
        0 <= k < w,
    ensures
        i * w + k < n * w,
        (i + 1) * w == i * w + w,
        i * w + w <= n * w,
        0 <= i * w,
{
    assert(i * w + w <= n * w) by (nonlinear_arith)
        requires
            0 <= i < n,
            0 <= k < w,
    ;
    assert(i * w + k < n * w) by (nonlinear_arith)
        requires
            0 <= i < n,
            0 <= k < w,
    ;
    assert((i + 1) * w == i * w + w) by (nonlinear_arith);
    assert(0 <= i * w) by (nonlinear_arith)
        requires
            0 <= i,
            0 <= k < w,
    ;
}

/// Whether `len` rows of `width` fill exactly `total` entries, and `width`
/// as a `usize` when they do and there is a row.
fn row_layout(len: usize, width: u64, total: usize) -> (r: (bool, usize))
    requires
        width >= 1,
    ensures
        r.0 == (total == len * width),
        r.0 && len > 0 ==> r.1 == width,
        r.0 && len == 0 ==> r.1 == 1,
{
    proof {
        assert((len as int) * (width as int) < 0x1_0000_0000_0000_0000 * 0x1_0000_0000_0000_0000)
            by (nonlinear_arith)
            requires
                (len as int) < 0x1_0000_0000_0000_0000,
                (width as int) < 0x1_0000_0000_0000_0000,
        ;
    }
    let product = (len as u128) * (width as u128);
    if product != total as u128 {
        return (false, 1);
    }
    if len == 0 {
        return (true, 1);
    }
    proof {
        assert(width <= product) by (nonlinear_arith)
            requires
                product == len * width,
                len >= 1,
        ;
    }
    (true, width as usize)
}

/// Checks that every id names a cell at `depth`.
pub fn check_cells(depth: u8, cells: &[u64]) -> (r: bool)
    requires
        depth <= 29,
    ensures
        r == all_valid(depth as nat, cells@),
{
    let n = cell_count(depth);
    let mut i: usize = 0;
    while i < cells.len()
        invariant
            i <= cells.len(),
            n as nat == n_cells(depth as nat),
            depth <= 29,
            forall|k: int| 0 <= k < i ==> valid_cell(depth as nat, #[trigger] cells@[k] as nat),
        decreases cells.len() - i,
    {
        if cells[i] >= n {
            return false;
        }
        i = i + 1;
    }
    true
}

/// Zooms every cell to `new_depth` into `result`, one row of
/// `zoom_width(depth, new_depth)` ids per cell.
pub fn zoom_to(depth: u8, cells: &[u64], new_depth: u8, result: &mut Vec<u64>) -> (r: Result<
    (),
    HierarchyError,
>)
    ensures
        final(result).len() == old(result).len(),
        r.is_ok() <==> depth <= 29 && new_depth <= 29 && all_valid(depth as nat, cells@)
            && old(result).len() == cells.len() * zoom_width(depth as nat, new_depth as nat),
        r.is_err() ==> final(result)@ == old(result)@,
        r.is_ok() ==> forall|i: int, k: int|
            0 <= i < cells.len() && 0 <= k < zoom_width(depth as nat, new_depth as nat) ==> #[trigger] final(result)[i * zoom_width(depth as nat, new_depth as nat) + k] == zoom_row(
                depth as nat,
                cells[i] as nat,
                new_depth as nat,
            )[k],
{
    if depth > 29 || new_depth > 29 {
        return Err(HierarchyError::DepthOutOfRange);
    }
    if !check_cells(depth, cells) {
        return Err(HierarchyError::CellOutOfRange);
    }
    let w: u64 = if new_depth > depth { pow4_exec(new_depth - depth) } else { 1 };
    let ghost wd = zoom_width(depth as nat, new_depth as nat);
    proof {
        if new_depth > depth {
            lemma_pow4_positive((new_depth - depth) as nat);
        }
    }
    let (ok, w) = row_layout(cells.len(), w, result.len());
    if !ok {
        return Err(HierarchyError::OutputLength);
    }
    if cells.len() == 0 {
        return Ok(());
    }
    let mut i: usize = 0;
    while i < cells.len()
        invariant
            i <= cells.len(),
            depth <= 29,
            new_depth <= 29,
            all_valid(depth as nat, cells@),
            w as nat == wd,
            wd == zoom_width(depth as nat, new_depth as nat),
            wd >= 1,
            result.len() == cells.len() * wd,
            result.len() == old(result).len(),
            forall|j: int, k: int|
                0 <= j < i && 0 <= k < wd ==> #[trigger] result[j * wd + k] == zoom_row(
                    depth as nat,
                    cells[j] as nat,
                    new_depth as nat,
                )[k],
        decreases cells.len() - i,
    {
        let c = cells[i];
        proof {
            assert(valid_cell(depth as nat, cells@[i as int] as nat));
            lemma_row_bounds(i as int, 0, wd as int, cells.len() as int);
        }
        let row: Vec<u64> = if new_depth > depth {
            children(depth, c, new_depth)
        } else {
            let p = parent(depth, c, new_depth);
            let mut v: Vec<u64> = Vec::new();
            v.push(p);
            proof {
                assert(v@ =~= zoom_row(depth as nat, c as nat, new_depth as nat));
            }
            v
        };
        let ghost before = result@;
        write_row(result, i * w, &row);
        proof {
            assert forall|j: int, k: int| 0 <= j < i + 1 && 0 <= k < wd implies #[trigger] result[j
                * wd + k] == zoom_row(depth as nat, cells[j] as nat, new_depth as nat)[k] by {
                lemma_row_bounds(j, k, wd as int, cells.len() as int);
                if j < i {
                    assert(j * wd + k < i * wd) by (nonlinear_arith)
                        requires
                            0 <= j < i,
                            0 <= k < wd,
                    ;
                    assert(result[j * wd + k] == before[j * wd + k]);
                } else {
                    assert(result[i * wd + k] == row[k]);
                }
            }
        }
        i = i + 1;
    }
    Ok(())
}

/// Cells per output row of `siblings_into`: twelve at depth 0, else four.
pub open spec fn siblings_width(depth: nat) -> nat {
    if depth == 0 {
        12
    } else {
        4
    }
}

/// Why `siblings_into` refuses a request, checked in this order.
pub open spec fn siblings_error(depth: u8, cells: Seq<u64>) -> HierarchyError {
    if depth > 29 {
        HierarchyError::DepthOutOfRange
    } else if !all_valid(depth as nat, cells) {
        HierarchyError::CellOutOfRange
    } else {
        HierarchyError::OutputLength
    }
}

/// Writes the siblings of every cell at the front of its row of `result`,
/// rows being `width` long; the rest of every row is kept.
pub fn siblings_into(depth: u8, cells: &[u64], width: usize, result: &mut Vec<u64>) -> (r: Result<
    (),
    HierarchyError,
>)
    ensures
        final(result).len() == old(result).len(),
        r.is_ok() <==> depth <= 29 && all_valid(depth as nat, cells@) && width >= siblings_width(
            depth as nat,
        ) && old(result).len() == cells.len() * width,
        r matches Err(e) ==> e == siblings_error(depth, cells@) && final(result)@ == old(result)@,
        r.is_ok() ==> rows_written(
            final(result)@,
            old(result)@,
            cells@.map_values(|c: u64| siblings_spec(depth as nat, c as nat)),
            width as nat,
        ),
{
    if depth > 29 {
        return Err(HierarchyError::DepthOutOfRange);
    }
    if !check_cells(depth, cells) {
        return Err(HierarchyError::CellOutOfRange);
    }
    let sw: usize = if depth == 0 { 12 } else { 4 };
    if width < sw {
        return Err(HierarchyError::OutputLength);
    }
    let (ok, _w) = row_layout(cells.len(), width as u64, result.len());
    if !ok {
        return Err(HierarchyError::OutputLength);
    }
    let mut rows: Vec<Vec<u64>> = Vec::new();
    let mut i: usize = 0;
    while i < cells.len()
        invariant
            i <= cells.len(),
            depth <= 29,
            all_valid(depth as nat, cells@),
            sw as nat == siblings_width(depth as nat),
            sw <= width,
            rows.len() == i,
            forall|j: int| 0 <= j < i ==> (#[trigger] rows[j])@ == siblings_spec(
                depth as nat,
                cells[j] as nat,
            ),
            forall|j: int| 0 <= j < i ==> (#[trigger] rows[j]).len() <= width,
        decreases cells.len() - i,
    {
        proof {
            assert(valid_cell(depth as nat, cells@[i as int] as nat));
        }
        let row = siblings(depth, cells[i]);
        rows.push(row);
        i = i + 1;
    }
    write_rows(result, width, &rows);
    proof {
        let rs = rows@.map_values(|r: Vec<u64>| r@);
        assert(rs =~= cells@.map_values(|c: u64| siblings_spec(depth as nat, c as nat)));
    }
    Ok(())
}

// ---------------------------------------------------------------------------
// Neighbourhoods, through the tiling.

/// The cells within `k` steps of `cell` at `depth`, the cell first, as the
/// tiling lists them.
pub uninterp spec fn neighbourhood(depth: u8, cell: u64, k: u32) -> Seq<u64>;

/// The nested id of the cell with ring id `cell` at `depth`.
pub uninterp spec fn nested_of_ring(depth: u8, cell: u64) -> u64;

/// The ring id of the cell with nested id `cell` at `depth`.
pub uninterp spec fn ring_of_nested(depth: u8, cell: u64) -> u64;

/// `2^depth`, the number of cells along a base cell's side.
pub open spec fn nside(depth: nat) -> nat
    decreases depth,
{
    if depth == 0 {
        1
    } else {
        2 * nside((depth - 1) as nat)
    }
}

/// Relies on cdshealpix's Layer::kth_neighbourhood (on the layer of
/// nested::get), which lists the cell and then the cells of each ring around
/// it up to `k`: at most `(1 + 2k)^2` cells, as documented; it is documented
/// to panic for a `k` of nside or more.
#[verifier::external_body]
fn neighbourhood_call(depth: u8, cell: u64, k: u32) -> (r: Vec<u64>)
    requires
        valid_cell(depth as nat, cell as nat),
        (k as nat) < nside(depth as nat),
    ensures
        r@ == neighbourhood(depth, cell, k),
        r.len() >= 1,
        r.len() <= (2 * k + 1) * (2 * k + 1),
        r[0] == cell,
        forall|i: int| 0 <= i < r.len() ==> valid_cell(depth as nat, #[trigger] r[i] as nat),
{
    cdshealpix::nested::get(depth).kth_neighbourhood(cell, k)
}

/// Deepest level at which ring ids are converted to nested ids.
///
/// In the polar caps the conversion takes the floating-point square root of
/// `1 + 2 * hash`, which stays below `(2^(depth+1) + 1)^2`. Up to this depth
/// that is below 2^47: exactly representable, and too far from the next
/// perfect square for the rounded root to reach it.
pub const RING_DEPTH_MAX: u8 = 22;

/// Relies on cdshealpix's Layer::from_ring: the nested id of a ring id of
/// the same layer, exact where its square root is (see `RING_DEPTH_MAX`).
#[verifier::external_body]
fn from_ring_call(depth: u8, cell: u64) -> (r: u64)
    requires
        depth <= RING_DEPTH_MAX,
        valid_cell(depth as nat, cell as nat),
    ensures
        r == nested_of_ring(depth, cell),
        valid_cell(depth as nat, r as nat),
{
    cdshealpix::nested::get(depth).from_ring(cell)
}

/// Relies on cdshealpix's Layer::to_ring: the ring id of a nested id of the
/// same layer.
#[verifier::external_body]
fn to_ring_call(depth: u8, cell: u64) -> (r: u64)
    requires
        valid_cell(depth as nat, cell as nat),
    ensures
        r == ring_of_nested(depth, cell),
        valid_cell(depth as nat, r as nat),
{
    cdshealpix::nested::get(depth).to_ring(cell)
}

/// The ring id of the cell with nested id `cell`.
pub fn to_ring(depth: u8, cell: u64) -> (r: Result<u64, HierarchyError>)
    ensures
        r.is_ok() <==> valid_cell(depth as nat, cell as nat),
        r matches Ok(v) ==> v == ring_of_nested(depth, cell) && valid_cell(depth as nat, v as nat),
        r matches Err(e) ==> e == (if depth > 29 {
            HierarchyError::DepthOutOfRange
        } else {
            HierarchyError::CellOutOfRange
        }),
{
    if depth > 29 {
        return Err(HierarchyError::DepthOutOfRange);
    }
    if cell >= cell_count(depth) {
        return Err(HierarchyError::CellOutOfRange);
    }
    Ok(to_ring_call(depth, cell))
}

/// The nested id of the cell with ring id `cell`, up to `RING_DEPTH_MAX`.
pub fn from_ring(depth: u8, cell: u64) -> (r: Result<u64, HierarchyError>)
    ensures
        r.is_ok() <==> depth <= RING_DEPTH_MAX && valid_cell(depth as nat, cell as nat),
        r matches Ok(v) ==> v == nested_of_ring(depth, cell) && valid_cell(depth as nat, v as nat),
        r matches Err(e) ==> e == (if depth > 29 {
            HierarchyError::DepthOutOfRange
        } else if depth > RING_DEPTH_MAX {
            HierarchyError::RingDepthUnsupported
        } else {
            HierarchyError::CellOutOfRange
        }),
{
    if depth > 29 {
        return Err(HierarchyError::DepthOutOfRange);
    }
    if depth > RING_DEPTH_MAX {
        return Err(HierarchyError::RingDepthUnsupported);
    }
    if cell >= cell_count(depth) {
        return Err(HierarchyError::CellOutOfRange);
    }
    Ok(from_ring_call(depth, cell))
}

/// `2^depth`, computed.
pub fn nside_exec(depth: u8) -> (r: u64)
    requires
        depth <= 29,
    ensures
        r as nat == nside(depth as nat),
        r <= 0x2000_0000,
{
    let mut r: u64 = 1;
    let mut i: u8 = 0;
    proof {
        lemma_nside_split(0);
    }
    while i < depth
        invariant
            i <= depth <= 29,
            r as nat == nside(i as nat),
            r as nat * nside((29 - i) as nat) == 0x2000_0000nat,
        decreases depth - i,
    {
        proof {
            lemma_nside_split(i as nat);
            lemma_nside_positive((29 - (i + 1)) as nat);
            let m = nside((29 - (i + 1)) as nat);
            assert(r as nat * 2 <= 0x2000_0000nat) by (nonlinear_arith)
                requires
                    r as nat * (2 * m) == 0x2000_0000nat,
                    m >= 1,
            ;
            assert((r as nat * 2) * m == 0x2000_0000nat) by (nonlinear_arith)
                requires
                    r as nat * (2 * m) == 0x2000_0000nat,
            ;
        }
        r = r * 2;
        i = i + 1;
    }
    proof {
        lemma_nside_split(depth as nat);
        let m = nside((29 - depth) as nat);
        assert(r as nat <= 0x2000_0000nat) by (nonlinear_arith)
            requires
                r as nat * m == 0x2000_0000nat,
                m >= 1,
        ;
    }
    r
}

proof fn lemma_nside_split(i: nat)
    requires
        i <= 29,
    ensures
        nside(i) * nside((29 - i) as nat) == 0x2000_0000,
        nside(i) >= 1,
        nside((29 - i) as nat) >= 1,
        i < 29 ==> nside((29 - i) as nat) == 2 * nside((29 - (i + 1)) as nat),
    decreases i,
{
    lemma_nside_29();
    lemma_nside_positive(i);
    lemma_nside_positive((29 - i) as nat);
    lemma_nside_add(i, (29 - i) as nat);
}

proof fn lemma_nside_29()
    ensures
        nside(29) == 0x2000_0000,
{
    reveal_with_fuel(nside, 30);
}

proof fn lemma_nside_positive(n: nat)
    ensures
        nside(n) >= 1,
    decreases n,
{
    if n > 0 {
        lemma_nside_positive((n - 1) as nat);
    }
}

proof fn lemma_nside_add(a: nat, b: nat)
    ensures
        nside(a + b) == nside(a) * nside(b),
    decreases a,
{
    if a > 0 {
        lemma_nside_add((a - 1) as nat, b);
        assert(nside(a + b) == 2 * nside((a - 1 + b) as nat));
        assert(2 * (nside((a - 1) as nat) * nside(b)) == (2 * nside((a - 1) as nat)) * nside(b))
            by (nonlinear_arith);
    } else {
        assert(1 * nside(b) == nside(b));
    }
}

/// One neighbourhood row: the ids as signed integers.
pub open spec fn neighbour_row(ids: Seq<u64>) -> Seq<i64> {
    ids.map_values(|v: u64| v as i64)
}

/// The neighbourhood of a ring id, in ring ids.
pub open spec fn ring_neighbourhood(depth: u8, cell: u64, k: u32) -> Seq<u64> {
    neighbourhood(depth, nested_of_ring(depth, cell), k).map_values(|v: u64| ring_of_nested(depth, v))
}

/// The row written for one cell, in the nested or the ring scheme.
pub open spec fn neighbourhood_row_spec(depth: u8, cell: u64, k: u32, ring_scheme: bool) -> Seq<i64> {
    neighbour_row(
        if ring_scheme {
            ring_neighbourhood(depth, cell, k)
        } else {
            neighbourhood(depth, cell, k)
        },
    )
}

/// Entries per neighbourhood row: `(2k + 1)^2`.
pub open spec fn neighbourhood_width(k: u32) -> nat {
    ((2 * k + 1) * (2 * k + 1)) as nat
}

/// `out` after writing `rows[j]` at the front of row `j` (rows of `width`),
/// everything else as in `before`.
pub open spec fn rows_written<T>(out: Seq<T>, before: Seq<T>, rows: Seq<Seq<T>>, width: nat) -> bool {
    forall|j: int, k: int|
        0 <= j < rows.len() && 0 <= k < width ==> #[trigger] out[j * width + k] == (if k
            < rows[j].len() {
            rows[j][k]
        } else {
            before[j * width + k]
        })
}

proof fn lemma_row_order(i: int, j: int, k: int, w: int)
    requires
        0 <= i,
        0 <= j,
        0 <= k < w,
    ensures
        j < i ==> j * w + k < i * w,
        j > i ==> j * w + k >= i * w + w,
{
    assert(j < i ==> j * w + k < i * w) by (nonlinear_arith)
        requires
            0 <= k < w,
    ;
    assert(j > i ==> j * w + k >= i * w + w) by (nonlinear_arith)
        requires
            0 <= k < w,
    ;
}

/// Writes each `rows[j]` at the front of row `j` of `out`, rows being
/// `width` long; the rest of every row is kept.
pub fn write_rows<T: Copy>(out: &mut Vec<T>, width: usize, rows: &Vec<Vec<T>>)
    requires
        width >= 1,
        old(out).len() == rows.len() * width,
        forall|j: int| 0 <= j < rows.len() ==> (#[trigger] rows[j]).len() <= width,
    ensures
        final(out).len() == old(out).len(),
        rows_written(final(out)@, old(out)@, rows@.map_values(|r: Vec<T>| r@), width as nat),
{
    let ghost w = width as nat;
    let ghost rs = rows@.map_values(|r: Vec<T>| r@);
    let mut i: usize = 0;
    while i < rows.len()
        invariant
            i <= rows.len(),
            w == width as nat,
            w >= 1,
            rs == rows@.map_values(|r: Vec<T>| r@),
            out.len() == old(out).len(),
            out.len() == rows.len() * w,
            forall|j: int| 0 <= j < rows.len() ==> (#[trigger] rows[j]).len() <= width,
            forall|j: int, k: int|
                0 <= j < rows.len() && 0 <= k < w ==> #[trigger] out[j * w + k] == (if j < i && k
                    < rs[j].len() {
                    rs[j][k]
                } else {
                    old(out)[j * w + k]
                }),
        decreases rows.len() - i,
    {
        proof {
            lemma_row_bounds(i as int, 0, w as int, rows.len() as int);
            assert(rows[i as int].len() <= width);
        }
        let ghost before = out@;
        write_row(out, i * width, &rows[i]);
        proof {
            assert forall|j: int, k: int| 0 <= j < rows.len() && 0 <= k < w implies #[trigger] out[j
                * w + k] == (if j < i + 1 && k < rs[j].len() {
                rs[j][k]
            } else {
                old(out)[j * w + k]
            }) by {
                lemma_row_bounds(j, k, w as int, rows.len() as int);
                lemma_row_order(i as int, j, k, w as int);
                assert(rs[j] == rows[j]@);
                if j == i && k < rs[j].len() {
                    assert(out[i * w + k] == rows[i as int][k]);
                } else {
                    assert(out[j * w + k] == before[j * w + k]);
                }
            }
        }
        i = i + 1;
    }
}

fn to_signed(ids: &Vec<u64>) -> (r: Vec<i64>)
    ensures
        r@ == neighbour_row(ids@),
{
    let mut r: Vec<i64> = Vec::new();
    let mut i: usize = 0;
    while i < ids.len()
        invariant
            i <= ids.len(),
            r@ == neighbour_row(ids@.take(i as int)),
        decreases ids.len() - i,
    {
        r.push(ids[i] as i64);
        proof {
            assert(r@ =~= neighbour_row(ids@.take(i + 1)));
        }
        i = i + 1;
    }
    proof {
        assert(ids@.take(ids.len() as int) =~= ids@);
    }
    r
}

/// The neighbourhood of one cell as a row of signed ids, in the nested or
/// the ring scheme.
fn neighbourhood_row(depth: u8, cell: u64, k: u32, ring_scheme: bool) -> (r: Vec<i64>)
    requires
        valid_cell(depth as nat, cell as nat),
        (k as nat) < nside(depth as nat),
        ring_scheme ==> depth <= RING_DEPTH_MAX,
    ensures
        r@ == neighbourhood_row_spec(depth, cell, k, ring_scheme),
        r.len() <= neighbourhood_width(k),
{
    if ring_scheme {
        let p = from_ring_call(depth, cell);
        let n = neighbourhood_call(depth, p, k);
        let mut m: Vec<u64> = Vec::new();
        let mut i: usize = 0;
        while i < n.len()
            invariant
                i <= n.len(),
                n@ == neighbourhood(depth, p, k),
                forall|j: int| 0 <= j < n.len() ==> valid_cell(depth as nat, #[trigger] n[j] as nat),
                m@ == n@.take(i as int).map_values(|v: u64| ring_of_nested(depth, v)),
            decreases n.len() - i,
        {
            let q = to_ring_call(depth, n[i]);
            m.push(q);
            proof {
                assert(m@ =~= n@.take(i + 1).map_values(|v: u64| ring_of_nested(depth, v)));
            }
            i = i + 1;
        }
        proof {
            assert(n@.take(n.len() as int) =~= n@);
        }
        to_signed(&m)
    } else {
        let n = neighbourhood_call(depth, cell, k);
        to_signed(&n)
    }
}

/// Why `kth_neighbourhood` refuses a request, checked in this order.
pub open spec fn neighbourhood_error(
    depth: u8,
    cells: Seq<u64>,
    k: u32,
    out_len: nat,
    ring_scheme: bool,
) -> HierarchyError {
    if depth > 29 {
        HierarchyError::DepthOutOfRange
    } else if ring_scheme && depth > RING_DEPTH_MAX {
        HierarchyError::RingDepthUnsupported
    } else if !all_valid(depth as nat, cells) {
        HierarchyError::CellOutOfRange
    } else if (k as nat) >= nside(depth as nat) {
        HierarchyError::RadiusTooLarge
    } else {
        HierarchyError::OutputLength
    }
}

/// Writes the neighbourhood within `k` steps of every cell into `out`, one
/// row of `(2k + 1)^2` entries per cell: each row starts with the cell's
/// neighbourhood and keeps what `out` held after it. With `ring_scheme` the
/// ids, given and written, are ring ids.
pub fn kth_neighbourhood(
    depth: u8,
    cells: &[u64],
    k: u32,
    out: &mut Vec<i64>,
    ring_scheme: bool,
) -> (r: Result<(), HierarchyError>)
    ensures
        final(out).len() == old(out).len(),
        r.is_ok() <==> depth <= 29 && (ring_scheme ==> depth <= RING_DEPTH_MAX) && all_valid(
            depth as nat,
            cells@,
        ) && (k as nat) < nside(depth as nat) && old(out).len() == cells.len()
            * neighbourhood_width(k),
        r matches Err(e) ==> e == neighbourhood_error(
            depth,
            cells@,
            k,
            old(out).len() as nat,
            ring_scheme,
        ) && final(out)@ == old(out)@,
        r.is_ok() ==> forall|i: int|
            0 <= i < cells.len() ==> #[trigger] neighbourhood_row_spec(
                depth,
                cells[i],
                k,
                ring_scheme,
            ).len() <= neighbourhood_width(k),
        r.is_ok() ==> rows_written(
            final(out)@,
            old(out)@,
            cells@.map_values(|c: u64| neighbourhood_row_spec(depth, c, k, ring_scheme)),
            neighbourhood_width(k),
        ),
{
    if depth > 29 {
        return Err(HierarchyError::DepthOutOfRange);
    }
    if ring_scheme && depth > RING_DEPTH_MAX {
        return Err(HierarchyError::RingDepthUnsupported);
    }
    if !check_cells(depth, cells) {
        return Err(HierarchyError::CellOutOfRange);
    }
    let ns = nside_exec(depth);
    if k as u64 >= ns {
        return Err(HierarchyError::RadiusTooLarge);
    }
    let side = 2 * (k as u64) + 1;
    proof {
        assert(side * side <= 0x4000_0001 * 0x4000_0001 && side * side >= 1) by (nonlinear_arith)
            requires
                1 <= side <= 0x4000_0001,
        ;
    }
    let w = side * side;
    let ghost wd = neighbourhood_width(k);
    assert(w as nat == wd);
    let (ok, w) = row_layout(cells.len(), w, out.len());
    if !ok {
        return Err(HierarchyError::OutputLength);
    }
    let ghost target = cells@.map_values(|c: u64| neighbourhood_row_spec(depth, c, k, ring_scheme));
    if cells.len() == 0 {
        proof {
            assert forall|j: int, m: int|
                0 <= j < target.len() && 0 <= m < wd implies #[trigger] out@[j * wd + m] == (if m
                < target[j].len() {
                target[j][m]
            } else {
                old(out)@[j * wd + m]
            }) by {}
        }
        return Ok(());
    }
    let mut rows: Vec<Vec<i64>> = Vec::new();
    let mut i: usize = 0;
    while i < cells.len()
        invariant
            i <= cells.len(),
            depth <= 29,
            ring_scheme ==> depth <= RING_DEPTH_MAX,
            all_valid(depth as nat, cells@),
            (k as nat) < nside(depth as nat),
            rows.len() == i,
            w as nat == wd,
            wd == neighbourhood_width(k),
            forall|j: int| 0 <= j < i ==> (#[trigger] rows[j])@ == neighbourhood_row_spec(
                depth,
                cells[j],
                k,
                ring_scheme,
            ),
            forall|j: int| 0 <= j < i ==> (#[trigger] rows[j]).len() <= w,
        decreases cells.len() - i,
    {
        proof {
            assert(valid_cell(depth as nat, cells@[i as int] as nat));
        }
        let row = neighbourhood_row(depth, cells[i], k, ring_scheme);
        rows.push(row);
        i = i + 1;
    }
    write_rows(out, w, &rows);
    proof {
        let rs = rows@.map_values(|r: Vec<i64>| r@);
        assert(rs =~= target);
        assert forall|j: int| 0 <= j < cells.len() implies #[trigger] neighbourhood_row_spec(
            depth,
            cells[j],
            k,
            ring_scheme,
        ).len() <= neighbourhood_width(k) by {
            assert(rows[j]@ == neighbourhood_row_spec(depth, cells[j], k, ring_scheme));
        }
    }
    Ok(())
}

} // verus!
