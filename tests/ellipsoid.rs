use healpix_geo::ellipsoid::{EllipsoidError, EllipsoidLike};

fn parametric(semimajor_axis: f64, inverse_flattening: f64) -> EllipsoidLike {
    EllipsoidLike::Parametric {
        inverse_flattening_ok: inverse_flattening >= 2.0,
        semimajor_axis_ok: semimajor_axis > 0.0,
    }
}

fn sphere(radius: f64) -> EllipsoidLike {
    EllipsoidLike::Spherical { radius_ok: radius > 0.0 }
}

#[test]
fn small_inverse_flattening_is_refused() {
    assert_eq!(
        parametric(1.0, 1.5).validate(),
        Err(EllipsoidError::InvalidFlattening)
    );
    assert_eq!(
        parametric(-1.0, 1.5).validate(),
        Err(EllipsoidError::InvalidFlattening)
    );
}

#[test]
fn non_positive_axis_is_refused() {
    assert_eq!(
        parametric(0.0, 298.257).validate(),
        Err(EllipsoidError::InvalidAxis)
    );
    assert_eq!(parametric(6378137.0, 298.257).validate(), Ok(()));
    assert!(!parametric(6378137.0, 298.257).is_spherical());
}

#[test]
fn spheres() {
    assert_eq!(sphere(-1.0).validate(), Err(EllipsoidError::InvalidRadius));
    let s = sphere(6371000.0);
    assert_eq!(s.validate(), Ok(()));
    assert!(s.is_spherical());
}

#[test]
fn named_ellipsoids() {
    let s = EllipsoidLike::Named { name: "sphere".to_string(), known: true };
    assert!(s.is_spherical());
    assert_eq!(s.validate(), Ok(()));
    let w = EllipsoidLike::Named { name: "WGS84".to_string(), known: true };
    assert!(!w.is_spherical());
    let u = EllipsoidLike::Named { name: "unit_sphere".to_string(), known: false };
    assert!(u.is_spherical());
    assert_eq!(u.validate(), Err(EllipsoidError::UnknownEllipsoid));
}
