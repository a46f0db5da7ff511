use healpix_geo::dispatch::dispatch_plan;
use healpix_geo::zuniq::{zuniq_from_nested, Depths};

#[test]
fn plans() {
    assert_eq!(dispatch_plan(10, 3), vec![(0, 4), (4, 8), (8, 10)]);
    assert_eq!(dispatch_plan(0, 4), vec![]);
    assert_eq!(dispatch_plan(3, 10), vec![(0, 1), (1, 2), (2, 3)]);
    assert_eq!(dispatch_plan(7, 1), vec![(0, 7)]);
}

#[test]
fn output_does_not_depend_on_worker_count() {
    let cells: Vec<u64> = (0..37).map(|i| (i * 5) % 48).collect();
    let whole = zuniq_from_nested(&cells, &Depths::Constant(1)).unwrap();
    for workers in 1..=12 {
        let mut out = Vec::new();
        for (s, e) in dispatch_plan(cells.len(), workers) {
            out.extend(zuniq_from_nested(&cells[s..e], &Depths::Constant(1)).unwrap());
        }
        assert_eq!(out, whole);
    }
}
