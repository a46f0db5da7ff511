//! Which ellipsoid descriptions are accepted, and which describe a sphere.
//!
//! The numbers of a description (axis, inverse flattening, radius) are
//! floating point and stay with the caller, who hands over the outcome of
//! each bound check; the rules that turn those outcomes into an accepted
//! model or an error live here.

use vstd::prelude::*;

verus! {

/// Why an ellipsoid description is refused.
#[derive(Debug, Clone, Copy, PartialEq, Eq, Structural)]
pub enum EllipsoidError {
    /// No reference ellipsoid has that name.
    UnknownEllipsoid,
    /// The inverse flattening is below 2.
    InvalidFlattening,
    /// The semimajor axis is not positive.
    InvalidAxis,
    /// The radius is not positive.
    InvalidRadius,
}

/// An ellipsoid description, with the outcome of each check on its numbers.
pub enum EllipsoidLike {
    /// A reference ellipsoid by name, and whether the name is registered.
    Named { name: String, known: bool },
    /// Semimajor axis and inverse flattening: whether the inverse flattening
    /// is at least 2, and whether the axis is positive.
    Parametric { inverse_flattening_ok: bool, semimajor_axis_ok: bool },
    /// A sphere: whether the radius is positive.
    Spherical { radius_ok: bool },
}

/// `needle` occurs in `s`.
pub open spec fn has_substring(s: Seq<char>, needle: Seq<char>) -> bool {
    exists|i: int|
        0 <= i && i + needle.len() <= s.len() && #[trigger] s.subrange(i, i + needle.len())
            == needle
}

/// Relies on str::contains with a `&str` pattern: whether the pattern
/// occurs in the string.
#[verifier::external_body]
fn str_contains(s: &str, needle: &str) -> (r: bool)
    ensures
        r == has_substring(s@, needle@),
{
    s.contains(needle)
}

/// A description names a sphere: a name holding "sphere", or a radius.
pub open spec fn spherical_spec(e: &EllipsoidLike) -> bool {
    match e {
        EllipsoidLike::Named { name, .. } => has_substring(name@, "sphere"@),
        EllipsoidLike::Parametric { .. } => false,
        EllipsoidLike::Spherical { .. } => true,
    }
}

/// The verdict on a description.
pub open spec fn validate_spec(e: &EllipsoidLike) -> Result<(), EllipsoidError> {
    match e {
        EllipsoidLike::Named { known, .. } => if *known {
            Ok(())
        } else {
            Err(EllipsoidError::UnknownEllipsoid)
        },
        EllipsoidLike::Parametric { inverse_flattening_ok, semimajor_axis_ok } => {
            if *inverse_flattening_ok && *semimajor_axis_ok {
                Ok(())
            } else if !*inverse_flattening_ok {
                Err(EllipsoidError::InvalidFlattening)
            } else {
                Err(EllipsoidError::InvalidAxis)
            }
        },
        EllipsoidLike::Spherical { radius_ok } => if *radius_ok {
            Ok(())
        } else {
            Err(EllipsoidError::InvalidRadius)
        },
    }
}

impl EllipsoidLike {
    /// Whether the description is of a sphere, so that no latitude
    /// correction applies.
    pub fn is_spherical(&self) -> (r: bool)
        ensures
            r == spherical_spec(self),
    {
        match self {
            EllipsoidLike::Named { name, .. } => str_contains(name.as_str(), "sphere"),
            EllipsoidLike::Parametric { .. } => false,
            EllipsoidLike::Spherical { .. } => true,
        }
    }

    /// Accepts or refuses the description; the inverse flattening is checked
    /// before the axis.
    pub fn validate(&self) -> (r: Result<(), EllipsoidError>)
        ensures
            r == validate_spec(self),
    {
        match self {
            EllipsoidLike::Named { known, .. } => if *known {
                Ok(())
            } else {
                Err(EllipsoidError::UnknownEllipsoid)
            },
            EllipsoidLike::Parametric { inverse_flattening_ok, semimajor_axis_ok } => {
                if *inverse_flattening_ok && *semimajor_axis_ok {
                    Ok(())
                } else if !*inverse_flattening_ok {
                    Err(EllipsoidError::InvalidFlattening)
                } else {
                    Err(EllipsoidError::InvalidAxis)
                }
            },
            EllipsoidLike::Spherical { radius_ok } => if *radius_ok {
                Ok(())
            } else {
                Err(EllipsoidError::InvalidRadius)
            },
        }
    }
}

} // verus!
