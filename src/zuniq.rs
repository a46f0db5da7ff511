//! The zuniq code: a depth and a nested cell id in one integer.
//!
//! A cell `hash` at `depth` is coded as `(2 * hash + 1) * 4^(29 - depth)`:
//! the sentinel bit marks where the cell bits end, so the depth is recovered
//! from the number of trailing zero bits.

use vstd::prelude::*;

verus! {

/// The deepest level of the tiling.
pub const DEPTH_MAX: u8 = 29;

/// `4^n`.
pub open spec fn pow4(n: nat) -> nat
    decreases n,
{
    if n == 0 {
        1
    } else {
        4 * pow4((n - 1) as nat)
    }
}

/// Number of cells at `depth`: `12 * 4^depth`.
pub open spec fn n_cells(depth: nat) -> nat {
    12 * pow4(depth)
}

/// `(depth, cell)` names a cell of the tiling.
pub open spec fn valid_cell(depth: nat, cell: nat) -> bool {
    depth <= 29 && cell < n_cells(depth)
}

/// The zuniq code of a cell.
pub open spec fn zuniq_code(depth: nat, cell: nat) -> nat
    recommends
        depth <= 29,
{
    (2 * cell + 1) * pow4((29 - depth) as nat)
}

/// `z` is the code of some valid cell.
pub open spec fn is_zuniq(z: nat) -> bool {
    exists|d: nat, c: nat| valid_cell(d, c) && zuniq_code(d, c) == z
}

pub proof fn lemma_pow4_positive(n: nat)
    ensures
        pow4(n) >= 1,
    decreases n,
{
    if n > 0 {
        lemma_pow4_positive((n - 1) as nat);
    }
}

pub proof fn lemma_pow4_add(a: nat, b: nat)
    ensures
        pow4(a + b) == pow4(a) * pow4(b),
    decreases a,
{
    if a > 0 {
        lemma_pow4_add((a - 1) as nat, b);
        assert(pow4(a + b) == 4 * pow4((a - 1 + b) as nat));
        assert(4 * (pow4((a - 1) as nat) * pow4(b)) == (4 * pow4((a - 1) as nat)) * pow4(b))
            by (nonlinear_arith);
    } else {
        assert(pow4(a) == 1);
        assert(1 * pow4(b) == pow4(b));
    }
}

pub proof fn lemma_pow4_monotone(a: nat, b: nat)
    requires
        a <= b,
    ensures
        pow4(a) <= pow4(b),
{
    lemma_pow4_add(a, (b - a) as nat);
    lemma_pow4_positive((b - a) as nat);
    lemma_pow4_positive(a);
    assert(pow4(a) * pow4((b - a) as nat) >= pow4(a) * 1) by (nonlinear_arith)
        requires
            pow4((b - a) as nat) >= 1,
    ;
}

/// Values of `4^n` that the codec's bounds need.
pub proof fn lemma_pow4_values()
    ensures
        pow4(29) == 0x0400_0000_0000_0000,
        pow4(1) == 4,
{
    reveal_with_fuel(pow4, 30);
}

/// An odd number times `4^a` equals another odd number times `4^b` only when
/// both factors agree.
proof fn lemma_odd_times_pow4_unique(x: nat, a: nat, y: nat, b: nat)
    requires
        x % 2 == 1,
        y % 2 == 1,
        x * pow4(a) == y * pow4(b),
    ensures
        a == b,
        x == y,
    decreases a + b,
{
    if a == 0 && b == 0 {
        assert(x * 1 == x);
        assert(y * 1 == y);
    } else if a == 0 {
        // x is odd, y * 4^b is even
        let p = pow4((b - 1) as nat);
        assert(y * pow4(b) == 2 * (2 * y * p)) by (nonlinear_arith)
            requires
                pow4(b) == 4 * p,
        ;
        assert(x * pow4(a) == x);
        assert(false);
    } else if b == 0 {
        let p = pow4((a - 1) as nat);
        assert(x * pow4(a) == 2 * (2 * x * p)) by (nonlinear_arith)
            requires
                pow4(a) == 4 * p,
        ;
        assert(y * pow4(b) == y);
        assert(false);
    } else {
        let p = pow4((a - 1) as nat);
        let q = pow4((b - 1) as nat);
        assert(x * pow4(a) == 4 * (x * p)) by (nonlinear_arith)
            requires
                pow4(a) == 4 * p,
        ;
        assert(y * pow4(b) == 4 * (y * q)) by (nonlinear_arith)
            requires
                pow4(b) == 4 * q,
        ;
        lemma_odd_times_pow4_unique(x, (a - 1) as nat, y, (b - 1) as nat);
    }
}

/// Two valid cells with the same code are the same cell.
pub proof fn lemma_zuniq_injective(d1: nat, c1: nat, d2: nat, c2: nat)
    requires
        d1 <= 29,
        d2 <= 29,
        zuniq_code(d1, c1) == zuniq_code(d2, c2),
    ensures
        d1 == d2,
        c1 == c2,
{
    lemma_odd_times_pow4_unique(
        2 * c1 + 1,
        (29 - d1) as nat,
        2 * c2 + 1,
        (29 - d2) as nat,
    );
}

/// Number of cells at `depth`, computed.
pub fn cell_count(depth: u8) -> (r: u64)
    requires
        depth <= 29,
    ensures
        r as nat == n_cells(depth as nat),
{
    let mut r: u64 = 12;
    let mut i: u8 = 0;
    while i < depth
        invariant
            i <= depth <= 29,
            r as nat == 12 * pow4(i as nat),
        decreases depth - i,
    {
        proof {
            lemma_pow4_monotone((i + 1) as nat, 29);
            lemma_pow4_values();
            assert(pow4((i + 1) as nat) == 4 * pow4(i as nat));
        }
        r = r * 4;
        i = i + 1;
    }
    r
}

/// `4^(29 - depth)`: how many deepest-level cells one cell at `depth` holds.
pub fn unit_count(depth: u8) -> (r: u64)
    requires
        depth <= 29,
    ensures
        r as nat == pow4((29 - depth) as nat),
{
    let mut r: u64 = 1;
    let mut i: u8 = depth;
    while i < 29
        invariant
            depth <= i <= 29,
            r as nat == pow4((i - depth) as nat),
        decreases 29 - i,
    {
        proof {
            lemma_pow4_monotone((i + 1 - depth) as nat, 29);
            lemma_pow4_values();
            assert(pow4((i + 1 - depth) as nat) == 4 * pow4((i - depth) as nat));
        }
        r = r * 4;
        i = i + 1;
    }
    r
}

/// Relies on cdshealpix::nested::to_zuniq_unsafe, which computes
/// `((hash << 1) | 1) << (2 * (29 - depth))`.
#[verifier::external_body]
fn to_zuniq_call(depth: u8, hash: u64) -> (r: u64)
    requires
        valid_cell(depth as nat, hash as nat),
    ensures
        r as nat == zuniq_code(depth as nat, hash as nat),
{
    cdshealpix::nested::to_zuniq_unsafe(depth, hash)
}

/// Relies on cdshealpix::nested::from_zuniq, which reads the depth from the
/// trailing zero bits and the cell from the bits above the sentinel bit.
#[verifier::external_body]
fn from_zuniq_call(z: u64) -> (r: (u8, u64))
    requires
        is_zuniq(z as nat),
    ensures
        valid_cell(r.0 as nat, r.1 as nat),
        zuniq_code(r.0 as nat, r.1 as nat) == z as nat,
{
    cdshealpix::nested::from_zuniq(z)
}

/// Encodes a nested cell id and its depth as a zuniq code.
pub fn encode(depth: u8, cell: u64) -> (z: u64)
    requires
        valid_cell(depth as nat, cell as nat),
    ensures
        z as nat == zuniq_code(depth as nat, cell as nat),
        is_zuniq(z as nat),
{
    to_zuniq_call(depth, cell)
}

/// Decodes a zuniq code into its depth and nested cell id.
pub fn decode(z: u64) -> (r: (u8, u64))
    requires
        is_zuniq(z as nat),
    ensures
        valid_cell(r.0 as nat, r.1 as nat),
        zuniq_code(r.0 as nat, r.1 as nat) == z as nat,
        forall|d: nat, c: nat|
            valid_cell(d, c) && #[trigger] zuniq_code(d, c) == z as nat ==> r.0 as nat == d
                && r.1 as nat == c,
{
    let r = from_zuniq_call(z);
    proof {
        assert forall|d: nat, c: nat|
            valid_cell(d, c) && #[trigger] zuniq_code(d, c) == z as nat implies r.0 as nat == d
            && r.1 as nat == c by {
            lemma_zuniq_injective(d, c, r.0 as nat, r.1 as nat);
        }
    }
    r
}

/// Decoding the code of a valid cell gives that cell back.
pub proof fn lemma_round_trip(depth: u8, cell: u64)
    requires
        valid_cell(depth as nat, cell as nat),
    ensures
        is_zuniq(zuniq_code(depth as nat, cell as nat)),
        forall|d: nat, c: nat|
            valid_cell(d, c) && zuniq_code(d, c) == zuniq_code(depth as nat, cell as nat) ==> d
                == depth as nat && c == cell as nat,
{
    assert forall|d: nat, c: nat|
        valid_cell(d, c) && zuniq_code(d, c) == zuniq_code(
            depth as nat,
            cell as nat,
        ) implies d == depth as nat && c == cell as nat by {
        lemma_zuniq_injective(d, c, depth as nat, cell as nat);
    }
}

/// Whether `z` is the code of a valid cell: strip factors of four (at most
/// 29), then the rest must be odd and name a cell at the depth reached.
pub fn is_valid_zuniq(z: u64) -> (r: bool)
    ensures
        r == is_zuniq(z as nat),
{
    let mut x: u64 = z;
    let mut a: u8 = 0;
    let ghost w = choose|d: nat, c: nat| valid_cell(d, c) && zuniq_code(d, c) == z as nat;
    proof {
        assert(pow4(0) == 1);
        assert(x as nat == (x as nat) * pow4(0));
    }
    while x % 4 == 0 && a < 29
        invariant
            a <= 29,
            z as nat == (x as nat) * pow4(a as nat),
            is_zuniq(z as nat) ==> valid_cell(w.0, w.1) && zuniq_code(w.0, w.1) == z as nat
                && a as nat <= 29 - w.0 && x as nat == (2 * w.1 + 1) * pow4(
                (29 - w.0 - a) as nat,
            ),
        decreases 29 - a,
    {
        proof {
            assert(pow4((a + 1) as nat) == 4 * pow4(a as nat));
            assert((x as nat) * pow4(a as nat) == ((x / 4) as nat) * pow4((a + 1) as nat))
                by (nonlinear_arith)
                requires
                    x % 4 == 0,
                    pow4((a + 1) as nat) == 4 * pow4(a as nat),
            ;
            if is_zuniq(z as nat) {
                let m = (29 - w.0 - a) as nat;
                if m == 0 {
                    assert(x as nat == (2 * w.1 + 1) * 1);
                    assert(false);
                } else {
                    let q = pow4((m - 1) as nat);
                    assert(pow4(m) == 4 * q);
                    assert((x / 4) as nat == (2 * w.1 + 1) * q) by (nonlinear_arith)
                        requires
                            x as nat == (2 * w.1 + 1) * (4 * q),
                    ;
                }
            }
        }
        x = x / 4;
        a = a + 1;
    }
    proof {
        if is_zuniq(z as nat) {
            let m = (29 - w.0 - a) as nat;
            if m > 0 {
                let q = pow4((m - 1) as nat);
                assert(pow4(m) == 4 * q);
                assert(x as nat == 4 * ((2 * w.1 + 1) * q)) by (nonlinear_arith)
                    requires
                        x as nat == (2 * w.1 + 1) * (4 * q),
                ;
                assert(x % 4 == 0);
            }
            assert(m == 0);
            assert(pow4(0) == 1);
            assert(x as nat == (2 * w.1 + 1) * 1);
        }
    }
    if x % 2 == 0 {
        return false;
    }
    let d: u8 = 29 - a;
    let h: u64 = (x - 1) / 2;
    let n = cell_count(d);
    proof {
        assert(x as nat == 2 * (h as nat) + 1);
        assert(z as nat == zuniq_code(d as nat, h as nat));
        if is_zuniq(z as nat) {
            assert(h as nat == w.1);
        }
    }
    h < n
}

/// Why a batch conversion is refused.
#[derive(Debug, Clone, Copy, PartialEq, Eq, Structural)]
pub enum CodecError {
    /// A depth is above 29 (checked first for a shared depth, whatever the
    /// batch) or a cell id is out of range for its depth.
    InvalidCell,
    /// A value is not the code of any cell.
    InvalidCode,
    /// The per-cell depths and the cells differ in number.
    LengthMismatch,
}

/// The depth of the cells of a batch: one for all, or one per cell.
pub enum Depths {
    Constant(u8),
    PerCell(Vec<u8>),
}

/// The depth of the `i`-th cell.
pub open spec fn depth_at(depths: Depths, i: int) -> nat {
    match depths {
        Depths::Constant(d) => d as nat,
        Depths::PerCell(v) => v[i] as nat,
    }
}

/// The depths fit the batch, a shared depth is at most 29, and every cell is
/// valid at its depth.
pub open spec fn batch_valid(cells: Seq<u64>, depths: Depths) -> bool {
    &&& (depths matches Depths::PerCell(v) ==> v.len() == cells.len())
    &&& (depths matches Depths::Constant(d) ==> d <= 29)
    &&& forall|i: int| 0 <= i < cells.len() ==> valid_cell(depth_at(depths, i), #[trigger] cells[i] as nat)
}

/// The zuniq code of every cell of a batch.
pub fn zuniq_from_nested(cells: &[u64], depths: &Depths) -> (r: Result<Vec<u64>, CodecError>)
    ensures
        r.is_ok() <==> batch_valid(cells@, *depths),
        r matches Err(e) ==> e == (if depths matches Depths::PerCell(v) && v.len() != cells.len() {
            CodecError::LengthMismatch
        } else {
            CodecError::InvalidCell
        }),
        r matches Ok(v) ==> v.len() == cells.len() && forall|i: int|
            0 <= i < cells.len() ==> #[trigger] v[i] as nat == zuniq_code(depth_at(*depths, i), cells[i] as nat),
{
    match depths {
        Depths::PerCell(v) => {
            if v.len() != cells.len() {
                return Err(CodecError::LengthMismatch);
            }
        },
        Depths::Constant(d) => {
            if *d > 29 {
                return Err(CodecError::InvalidCell);
            }
        },
    }
    let mut out: Vec<u64> = Vec::new();
    let mut i: usize = 0;
    while i < cells.len()
        invariant
            i <= cells.len(),
            depths matches Depths::PerCell(v) ==> v.len() == cells.len(),
            depths matches Depths::Constant(d) ==> d <= 29,
            out.len() == i,
            forall|k: int| 0 <= k < i ==> valid_cell(depth_at(*depths, k), #[trigger] cells@[k] as nat),
            forall|k: int| 0 <= k < i ==> #[trigger] out[k] as nat == zuniq_code(depth_at(*depths, k), cells@[k] as nat),
        decreases cells.len() - i,
    {
        let d: u8 = match depths {
            Depths::Constant(d) => *d,
            Depths::PerCell(v) => v[i],
        };
        assert(depth_at(*depths, i as int) == d as nat);
        if d > 29 {
            assert(!valid_cell(depth_at(*depths, i as int), cells@[i as int] as nat));
            return Err(CodecError::InvalidCell);
        }
        let n = cell_count(d);
        if cells[i] >= n {
            assert(!valid_cell(depth_at(*depths, i as int), cells@[i as int] as nat));
            return Err(CodecError::InvalidCell);
        }
        let z = encode(d, cells[i]);
        out.push(z);
        i = i + 1;
    }
    Ok(out)
}

/// The nested cell id and depth of every code of a batch.
pub fn zuniq_to_nested(codes: &[u64]) -> (r: Result<(Vec<u64>, Vec<u8>), CodecError>)
    ensures
        r.is_ok() <==> forall|i: int| 0 <= i < codes.len() ==> is_zuniq(#[trigger] codes[i] as nat),
        r matches Err(e) ==> e == CodecError::InvalidCode,
        r matches Ok(p) ==> p.0.len() == codes.len() && p.1.len() == codes.len() && forall|i: int|
            0 <= i < codes.len() ==> valid_cell(#[trigger] p.1[i] as nat, p.0[i] as nat)
                && zuniq_code(p.1[i] as nat, p.0[i] as nat) == codes[i] as nat,
{
    let mut cells: Vec<u64> = Vec::new();
    let mut depths: Vec<u8> = Vec::new();
    let mut i: usize = 0;
    while i < codes.len()
        invariant
            i <= codes.len(),
            cells.len() == i,
            depths.len() == i,
            forall|k: int| 0 <= k < i ==> is_zuniq(#[trigger] codes@[k] as nat),
            forall|k: int|
                0 <= k < i ==> valid_cell(#[trigger] depths[k] as nat, cells[k] as nat) && zuniq_code(
                    depths[k] as nat,
                    cells[k] as nat,
                ) == codes@[k] as nat,
        decreases codes.len() - i,
    {
        if !is_valid_zuniq(codes[i]) {
            return Err(CodecError::InvalidCode);
        }
        let (d, c) = decode(codes[i]);
        cells.push(c);
        depths.push(d);
        i = i + 1;
    }
    Ok((cells, depths))
}

} // verus!
