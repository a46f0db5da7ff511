use healpix_geo::moc_index::{internal_boundary, IndexError, OffsetIndex, RangeMOCIndex};
use healpix_geo::slices::Slice;

fn ids(range: std::ops::Range<u64>) -> Vec<u64> {
    range.collect()
}

#[test]
fn full_domain_sizes() {
    assert_eq!(RangeMOCIndex::full_domain(0).unwrap().size(), 12);
    assert_eq!(RangeMOCIndex::full_domain(4).unwrap().size(), 12 * 256);
    assert_eq!(
        RangeMOCIndex::full_domain(29).unwrap().size(),
        3_458_764_513_820_540_928
    );
    let full = RangeMOCIndex::full_domain(3).unwrap();
    assert_eq!(full.depth(), 3);
    assert_eq!(full.nbytes(), 16);
    assert_eq!(full.cell_ids(), ids(0..768));
}

#[test]
fn full_domain_rejects_deep_depth() {
    assert_eq!(
        RangeMOCIndex::full_domain(30).err(),
        Some(IndexError::DepthOutOfRange)
    );
}

#[test]
fn from_cell_ids_counts_distinct_ids() {
    let m = RangeMOCIndex::from_cell_ids(2, &vec![5, 3, 5, 1, 3]).unwrap();
    assert_eq!(m.size(), 3);
    assert_eq!(m.cell_ids(), vec![1, 3, 5]);
    assert_eq!(m.depth(), 2);
    assert_eq!(m.nbytes(), 3 * 16);
}

#[test]
fn from_cell_ids_coalesces_consecutive_cells() {
    let m = RangeMOCIndex::from_cell_ids(1, &vec![7, 4, 5, 6, 10]).unwrap();
    assert_eq!(m.nbytes(), 2 * 16);
    assert_eq!(m.cell_ids(), vec![4, 5, 6, 7, 10]);
}

#[test]
fn from_cell_ids_rejects_bad_input() {
    assert_eq!(
        RangeMOCIndex::from_cell_ids(1, &vec![3, 48]).err(),
        Some(IndexError::CellOutOfRange)
    );
    assert_eq!(
        RangeMOCIndex::from_cell_ids(30, &vec![3]).err(),
        Some(IndexError::DepthOutOfRange)
    );
}

#[test]
fn empty_index() {
    let m = RangeMOCIndex::from_cell_ids(5, &vec![]).unwrap();
    assert_eq!(m.size(), 0);
    assert_eq!(m.nbytes(), 0);
    assert_eq!(m.cell_ids(), Vec::<u64>::new());
}

#[test]
fn union_of_halves_is_full_domain() {
    let a = RangeMOCIndex::from_cell_ids(4, &ids(0..6 * 256)).unwrap();
    let b = RangeMOCIndex::from_cell_ids(4, &ids(6 * 256..12 * 256)).unwrap();
    let u = a.union(&b);
    let full = RangeMOCIndex::full_domain(4).unwrap();
    assert_eq!(u.cell_ids(), full.cell_ids());
    assert_eq!(u.size(), full.size());
    assert_eq!(u.nbytes(), full.nbytes());
    assert_eq!(u.depth(), 4);
}

#[test]
fn union_of_disjoint_sets() {
    let a = RangeMOCIndex::from_cell_ids(1, &vec![1, 3]).unwrap();
    let b = RangeMOCIndex::from_cell_ids(1, &vec![2, 7]).unwrap();
    let both = RangeMOCIndex::from_cell_ids(1, &vec![1, 2, 3, 7]).unwrap();
    let u = a.union(&b);
    assert_eq!(u.cell_ids(), both.cell_ids());
    assert_eq!(u.nbytes(), both.nbytes());
}

#[test]
fn union_is_idempotent() {
    let x = RangeMOCIndex::from_cell_ids(3, &vec![9, 1, 2, 40]).unwrap();
    assert_eq!(x.union(&x).cell_ids(), x.cell_ids());
}

#[test]
fn intersection_of_overlapping_ranges() {
    let a = RangeMOCIndex::from_cell_ids(3, &ids(2 * 64..4 * 64)).unwrap();
    let b = RangeMOCIndex::from_cell_ids(3, &ids(3 * 64..5 * 64)).unwrap();
    let expected = RangeMOCIndex::from_cell_ids(3, &ids(3 * 64..4 * 64)).unwrap();
    let i = a.intersection(&b);
    assert_eq!(i.cell_ids(), expected.cell_ids());
    assert_eq!(i.size(), 64);
}

#[test]
fn intersection_of_disjoint_sets_is_empty() {
    let a = RangeMOCIndex::from_cell_ids(2, &vec![1, 2, 3]).unwrap();
    let b = RangeMOCIndex::from_cell_ids(2, &vec![4, 9]).unwrap();
    assert_eq!(a.intersection(&b).size(), 0);
}

#[test]
fn intersection_with_full_domain_keeps_index() {
    let a = RangeMOCIndex::from_cell_ids(2, &vec![17, 4, 5, 190]).unwrap();
    let full = RangeMOCIndex::full_domain(2).unwrap();
    assert_eq!(a.intersection(&full).cell_ids(), a.cell_ids());
}

#[test]
fn isel_selects_positions() {
    let m = RangeMOCIndex::from_cell_ids(2, &vec![0, 1, 2, 5, 6, 9]).unwrap();
    let s = OffsetIndex::Slice(Slice::new(Some(1), Some(4), None));
    assert_eq!(m.isel(&s).unwrap().cell_ids(), vec![1, 2, 5]);
    let s = OffsetIndex::Slice(Slice::new(Some(-2), None, Some(1)));
    assert_eq!(m.isel(&s).unwrap().cell_ids(), vec![6, 9]);
    let s = OffsetIndex::Slice(Slice::new(Some(4), Some(2), None));
    assert_eq!(m.isel(&s).unwrap().size(), 0);
}

#[test]
fn isel_on_full_domain_at_deepest_depth() {
    let m = RangeMOCIndex::full_domain(29).unwrap();
    let s = OffsetIndex::Slice(Slice::new(Some(5), Some(8), None));
    let r = m.isel(&s).unwrap();
    assert_eq!(r.cell_ids(), vec![5, 6, 7]);
    assert_eq!(r.depth(), 29);
}

#[test]
fn isel_matches_slice_of_cell_ids() {
    let input = vec![3, 4, 5, 6, 20, 21, 40, 41, 42, 43, 100];
    let m = RangeMOCIndex::from_cell_ids(3, &input).unwrap();
    let all = m.cell_ids();
    for i in 0..all.len() {
        for j in i..=all.len() {
            let s = OffsetIndex::Slice(Slice::new(Some(i as isize), Some(j as isize), None));
            assert_eq!(m.isel(&s).unwrap().cell_ids(), all[i..j].to_vec());
        }
    }
}

#[test]
fn isel_refuses_steps_and_position_lists() {
    let m = RangeMOCIndex::from_cell_ids(2, &vec![0, 1, 2, 5]).unwrap();
    let s = OffsetIndex::Slice(Slice::new(Some(0), Some(4), Some(2)));
    assert_eq!(m.isel(&s).err(), Some(IndexError::UnsupportedSelection));
    let p = OffsetIndex::Positions(vec![0, 2]);
    assert_eq!(m.isel(&p).err(), Some(IndexError::UnsupportedSelection));
}

#[test]
fn internal_boundary_of_whole_sphere_is_empty() {
    let r = internal_boundary(1, &ids(0..48)).unwrap();
    assert_eq!(r, Vec::<u64>::new());
}

#[test]
fn internal_boundary_is_subset_of_input() {
    let input = ids(0..16);
    let r = internal_boundary(2, &input).unwrap();
    assert!(!r.is_empty());
    for c in &r {
        assert!(input.contains(c));
    }
    for w in r.windows(2) {
        assert!(w[0] < w[1]);
    }
    let block = internal_boundary(1, &vec![0, 1, 2, 3]).unwrap();
    assert_eq!(block, vec![0, 1, 2, 3]);
}

#[test]
fn internal_boundary_rejects_deep_depth() {
    assert_eq!(
        internal_boundary(30, &vec![1]).err(),
        Some(IndexError::DepthOutOfRange)
    );
}

#[test]
fn nbytes_counts_maximal_runs() {
    let m = RangeMOCIndex::from_cell_ids(2, &vec![8, 0, 1, 7, 2, 5, 1]).unwrap();
    assert_eq!(m.size(), 6);
    assert_eq!(m.nbytes(), 48);
    let s = OffsetIndex::Slice(Slice::new(Some(1), Some(4), Some(1)));
    let r = m.isel(&s).unwrap();
    assert_eq!(r.cell_ids(), vec![1, 2, 5]);
    assert_eq!(r.nbytes(), 32);
}

#[test]
fn internal_boundary_of_all_base_cells_is_empty() {
    let r = internal_boundary(0, &ids(0..12)).unwrap();
    assert_eq!(r, Vec::<u64>::new());
}
