use healpix_geo::hierarchy::{
    children, from_ring, kth_neighbourhood, parent, siblings, siblings_into, to_ring, zoom_to,
    HierarchyError,
};

#[test]
fn parent_and_children() {
    assert_eq!(parent(2, 13, 0), 0);
    assert_eq!(parent(2, 47, 1), 11);
    assert_eq!(parent(3, 47, 3), 47);
    assert_eq!(children(1, 3, 2), vec![12, 13, 14, 15]);
    assert_eq!(children(0, 1, 2), (16..32).collect::<Vec<u64>>());
}

#[test]
fn siblings_of_cells() {
    assert_eq!(siblings(0, 5), (0..12).collect::<Vec<u64>>());
    assert_eq!(siblings(2, 13), vec![12, 13, 14, 15]);
    let mut out = vec![0u64; 8];
    siblings_into(1, &[5, 10], 4, &mut out).unwrap();
    assert_eq!(out, vec![4, 5, 6, 7, 8, 9, 10, 11]);
    let mut short = vec![0u64; 3];
    assert_eq!(
        siblings_into(1, &[5], 3, &mut short).err(),
        Some(HierarchyError::OutputLength)
    );
}

#[test]
fn siblings_keep_the_rest_of_wide_rows() {
    let mut out = vec![99u64; 12];
    siblings_into(2, &[13, 2], 6, &mut out).unwrap();
    assert_eq!(out, vec![12, 13, 14, 15, 99, 99, 0, 1, 2, 3, 99, 99]);
    let mut base = vec![7u64; 13];
    siblings_into(0, &[3], 13, &mut base).unwrap();
    let mut expected: Vec<u64> = (0..12).collect();
    expected.push(7);
    assert_eq!(base, expected);
}

#[test]
fn zoom_in_out_and_same() {
    let mut out = vec![0u64; 8];
    zoom_to(1, &[3, 0], 2, &mut out).unwrap();
    assert_eq!(out, vec![12, 13, 14, 15, 0, 1, 2, 3]);
    let mut up = vec![0u64; 2];
    zoom_to(2, &[47, 16], 0, &mut up).unwrap();
    assert_eq!(up, vec![2, 1]);
    let mut same = vec![0u64; 2];
    zoom_to(2, &[47, 16], 2, &mut same).unwrap();
    assert_eq!(same, vec![47, 16]);
}

#[test]
fn zoom_errors_leave_output() {
    let mut out = vec![7u64; 3];
    assert_eq!(
        zoom_to(1, &[3], 2, &mut out).err(),
        Some(HierarchyError::OutputLength)
    );
    assert_eq!(out, vec![7, 7, 7]);
    assert_eq!(
        zoom_to(1, &[48], 0, &mut out).err(),
        Some(HierarchyError::CellOutOfRange)
    );
    assert_eq!(
        zoom_to(30, &[1], 0, &mut out).err(),
        Some(HierarchyError::DepthOutOfRange)
    );
}

#[test]
fn ring_conversions() {
    assert_eq!(to_ring(2, 60).unwrap(), 22);
    assert_eq!(from_ring(2, 22).unwrap(), 60);
    assert_eq!(to_ring(2, 51).unwrap(), 54);
    assert_eq!(to_ring(2, 177).unwrap(), 187);
    assert_eq!(from_ring(2, 187).unwrap(), 177);
    assert_eq!(to_ring(2, 192).err(), Some(HierarchyError::CellOutOfRange));
    assert_eq!(to_ring(22, from_ring(22, 12345).unwrap()).unwrap(), 12345);
    assert_eq!(
        from_ring(23, 5).err(),
        Some(HierarchyError::RingDepthUnsupported)
    );
}

#[test]
fn neighbourhood_of_radius_zero() {
    let mut out = vec![-1i64; 2];
    kth_neighbourhood(3, &[17, 300], 0, &mut out, false).unwrap();
    assert_eq!(out, vec![17, 300]);
    let mut ring_out = vec![-1i64; 1];
    kth_neighbourhood(2, &[22], 0, &mut ring_out, true).unwrap();
    assert_eq!(ring_out, vec![22]);
}

#[test]
fn neighbourhood_of_radius_one() {
    let mut out = vec![-1i64; 9];
    kth_neighbourhood(2, &[60], 1, &mut out, false).unwrap();
    assert_eq!(out[0], 60);
    let filled: Vec<i64> = out.iter().copied().filter(|v| *v >= 0).collect();
    assert!(filled.len() >= 8);
    for v in &filled {
        assert!(*v < 192);
    }
    let mut ring_out = vec![-1i64; 9];
    kth_neighbourhood(2, &[22], 1, &mut ring_out, true).unwrap();
    assert_eq!(ring_out[0], 22);
    for (n, r) in out.iter().zip(ring_out.iter()) {
        if *n >= 0 {
            assert_eq!(to_ring(2, *n as u64).unwrap() as i64, *r);
        }
    }
}

#[test]
fn neighbourhood_keeps_row_tails() {
    for cell in [0u64, 5, 16, 47] {
        let mut out = vec![-7i64; 9];
        kth_neighbourhood(1, &[cell], 1, &mut out, false).unwrap();
        assert_eq!(out[0], cell as i64);
        let filled = out.iter().take_while(|v| **v != -7).count();
        assert!(filled >= 1);
        for v in &out[..filled] {
            assert!(*v >= 0 && *v < 48);
        }
        for v in &out[filled..] {
            assert_eq!(*v, -7);
        }
    }
}

#[test]
fn ring_neighbourhood_depth_limit() {
    let mut out = vec![0i64; 1];
    assert_eq!(
        kth_neighbourhood(23, &[5], 0, &mut out, true).err(),
        Some(HierarchyError::RingDepthUnsupported)
    );
    kth_neighbourhood(23, &[5], 0, &mut out, false).unwrap();
    assert_eq!(out, vec![5]);
}

#[test]
fn neighbourhood_errors() {
    let mut out = vec![0i64; 9];
    assert_eq!(
        kth_neighbourhood(0, &[1], 2, &mut out, false).err(),
        Some(HierarchyError::RadiusTooLarge)
    );
    let mut small = vec![0i64; 4];
    assert_eq!(
        kth_neighbourhood(2, &[60], 1, &mut small, false).err(),
        Some(HierarchyError::OutputLength)
    );
}
