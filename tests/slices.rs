use healpix_geo::slices::{ConcreteSlice, Slice, SliceError};

#[test]
fn resolve_defaults() {
    assert_eq!(Slice::new(None, None, None).indices(10), Ok((0, 10, 1)));
    assert_eq!(Slice::new(None, None, Some(-1)).indices(10), Ok((9, -1, -1)));
}

#[test]
fn resolve_negative_and_clamped_bounds() {
    assert_eq!(Slice::new(Some(-3), None, None).indices(10), Ok((7, 10, 1)));
    assert_eq!(Slice::new(Some(2), Some(100), Some(2)).indices(5), Ok((2, 5, 2)));
    assert_eq!(
        Slice::new(Some(-100), Some(-100), Some(-1)).indices(5),
        Ok((-1, -1, -1))
    );
    assert_eq!(Slice::new(Some(8), Some(-8), Some(-2)).indices(10), Ok((8, 2, -2)));
}

#[test]
fn resolve_errors() {
    assert_eq!(
        Slice::new(None, None, Some(0)).indices(3),
        Err(SliceError::ZeroStep)
    );
    assert_eq!(
        Slice::new(None, None, None).indices(-1),
        Err(SliceError::NegativeLength)
    );
}

#[test]
fn concrete_slices() {
    let c = Slice::new(Some(1), None, Some(3)).as_concrete(10).unwrap();
    assert_eq!(c, ConcreteSlice { start: 1, stop: 10, step: 3 });
    assert_eq!(c.indices(), (1, 10, 3));
    assert_eq!(c.size(), Ok(3));
}

#[test]
fn concrete_sizes() {
    assert_eq!(ConcreteSlice { start: 0, stop: 10, step: 3 }.size(), Ok(4));
    assert_eq!(ConcreteSlice { start: 9, stop: -1, step: -1 }.size(), Ok(10));
    assert_eq!(ConcreteSlice { start: 2, stop: 2, step: 1 }.size(), Ok(0));
    assert_eq!(ConcreteSlice { start: 5, stop: 1, step: 1 }.size(), Ok(0));
    assert_eq!(
        ConcreteSlice { start: 0, stop: 5, step: 0 }.size(),
        Err(SliceError::ZeroStep)
    );
}
