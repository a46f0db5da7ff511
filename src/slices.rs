//! Slices with optional bounds, and their resolution against a length by the
//! usual rule: negative offsets count from the end, bounds are clamped, and a
//! negative step may end at `-1`, one before the first position.

use vstd::prelude::*;

verus! {

/// Why a slice cannot be resolved.
#[derive(Debug, Clone, Copy, PartialEq, Eq, Structural)]
pub enum SliceError {
    /// The step is zero.
    ZeroStep,
    /// The length to resolve against is negative.
    NegativeLength,
}

/// A slice whose bounds and step may be left out.
#[derive(Debug, Clone, Copy, PartialEq, Eq, Structural)]
pub struct Slice {
    pub start: Option<isize>,
    pub stop: Option<isize>,
    pub step: Option<isize>,
}

/// A slice resolved against a length: every part is a plain integer.
#[derive(Debug, Clone, Copy, PartialEq, Eq, Structural)]
pub struct ConcreteSlice {
    pub start: isize,
    pub stop: isize,
    pub step: isize,
}

/// Resolves one bound: from the end when negative, then clamped to
/// `[lower, upper]`.
pub open spec fn resolve_bound(v: int, length: int, lower: int, upper: int) -> int {
    let w = if v < 0 { v + length } else { v };
    if w < lower {
        lower
    } else if w > upper {
        upper
    } else {
        w
    }
}

/// The resolved `(start, stop, step)` of a slice over `length` positions,
/// for a non-zero step and a non-negative length.
pub open spec fn resolve_spec(s: Slice, length: int) -> (int, int, int) {
    let step: int = match s.step {
        Some(v) => v as int,
        None => 1,
    };
    let lower: int = if step < 0 { -1 } else { 0 };
    let upper: int = if step < 0 { length - 1 } else { length };
    let start = match s.start {
        Some(v) => resolve_bound(v as int, length, lower, upper),
        None => if step < 0 { upper } else { lower },
    };
    let stop = match s.stop {
        Some(v) => resolve_bound(v as int, length, lower, upper),
        None => if step < 0 { lower } else { upper },
    };
    (start, stop, step)
}

/// How many positions `start, start + step, ...` lie before `stop`.
pub open spec fn range_len(start: int, stop: int, step: int) -> int {
    if step > 0 && start < stop {
        (stop - start - 1) / step + 1
    } else if step < 0 && start > stop {
        (start - stop - 1) / (-step) + 1
    } else {
        0
    }
}

fn resolve_bound_exec(v: isize, length: isize, lower: isize, upper: isize) -> (r: isize)
    requires
        length >= 0,
        lower <= upper + 1,
    ensures
        r == resolve_bound(v as int, length as int, lower as int, upper as int),
{
    let w = if v < 0 { v + length } else { v };
    if w < lower {
        lower
    } else if w > upper {
        upper
    } else {
        w
    }
}

impl Slice {
    pub fn new(start: Option<isize>, stop: Option<isize>, step: Option<isize>) -> (r: Slice)
        ensures
            r == (Slice { start, stop, step }),
    {
        Slice { start, stop, step }
    }

    /// The resolved `(start, stop, step)` over `size` positions.
    pub fn indices(&self, size: isize) -> (r: Result<(isize, isize, isize), SliceError>)
        ensures
            r matches Err(e) ==> e == (if self.step == Some(0isize) {
                SliceError::ZeroStep
            } else {
                SliceError::NegativeLength
            }),
            r.is_ok() <==> self.step != Some(0isize) && size >= 0,
            r matches Ok(t) ==> (t.0 as int, t.1 as int, t.2 as int) == resolve_spec(
                *self,
                size as int,
            ),
    {
        let step: isize = match self.step {
            Some(v) => v,
            None => 1,
        };
        if step == 0 {
            return Err(SliceError::ZeroStep);
        }
        if size < 0 {
            return Err(SliceError::NegativeLength);
        }
        let lower: isize = if step < 0 { -1 } else { 0 };
        let upper: isize = if step < 0 { size - 1 } else { size };
        let start = match self.start {
            Some(v) => resolve_bound_exec(v, size, lower, upper),
            None => if step < 0 { upper } else { lower },
        };
        let stop = match self.stop {
            Some(v) => resolve_bound_exec(v, size, lower, upper),
            None => if step < 0 { lower } else { upper },
        };
        Ok((start, stop, step))
    }

    /// The slice resolved over `size` positions.
    pub fn as_concrete(&self, size: isize) -> (r: Result<ConcreteSlice, SliceError>)
        ensures
            r.is_ok() <==> self.step != Some(0isize) && size >= 0,
            r matches Err(e) ==> e == (if self.step == Some(0isize) {
                SliceError::ZeroStep
            } else {
                SliceError::NegativeLength
            }),
            r matches Ok(c) ==> (c.start as int, c.stop as int, c.step as int) == resolve_spec(
                *self,
                size as int,
            ),
    {
        match self.indices(size) {
            Ok(t) => Ok(ConcreteSlice { start: t.0, stop: t.1, step: t.2 }),
            Err(e) => Err(e),
        }
    }
}

impl ConcreteSlice {
    /// The number of positions the slice selects.
    pub fn size(&self) -> (r: Result<usize, SliceError>)
        ensures
            r.is_ok() <==> self.step != 0,
            r matches Err(e) ==> e == SliceError::ZeroStep,
            r matches Ok(n) ==> n as int == range_len(
                self.start as int,
                self.stop as int,
                self.step as int,
            ),
    {
        let (start, stop, step) = (self.start, self.stop, self.step);
        if step == 0 {
            return Err(SliceError::ZeroStep);
        }
        if step > 0 && start < stop {
            let span = (stop as i128 - start as i128 - 1) as u128;
            let n = span / (step as u128) + 1;
            proof {
                assert(n <= span + 1) by (nonlinear_arith)
                    requires
                        n == span / (step as u128) + 1,
                        step >= 1,
                ;
            }
            Ok(n as usize)
        } else if step < 0 && start > stop {
            let span = (start as i128 - stop as i128 - 1) as u128;
            let neg = (-(step as i128)) as u128;
            let n = span / neg + 1;
            proof {
                assert(n <= span + 1) by (nonlinear_arith)
                    requires
                        n == span / neg + 1,
                        neg >= 1,
                ;
            }
            Ok(n as usize)
        } else {
            Ok(0)
        }
    }

    /// The three parts, in order.
    pub fn indices(&self) -> (r: (isize, isize, isize))
        ensures
            r == (self.start, self.stop, self.step),
    {
        (self.start, self.stop, self.step)
    }
}

} // verus!
