use hdbscan_incremental::points::PointRegistry;
use hdbscan_incremental::HdbscanError;

#[test]
fn test_registry_hands_out_consecutive_ids() {
    let mut r = PointRegistry::new(2);
    assert_eq!(r.register(2).unwrap(), 0);
    assert_eq!(r.register(2).unwrap(), 1);
    assert!(matches!(
        r.register(3),
        Err(HdbscanError::InvalidDimension { expected: 2, actual: 3 })
    ));
    assert_eq!(r.register(2).unwrap(), 2);
    assert_eq!(r.num_registered(), 3);
}

#[test]
fn test_registry_release() {
    let mut r = PointRegistry::new(1);
    r.register(1).unwrap();
    r.register(1).unwrap();
    assert!(matches!(r.release(5), Err(HdbscanError::PointNotFound(5))));
    assert_eq!(r.release(0).unwrap(), true);
    assert_eq!(r.release(0).unwrap(), false);
    assert_eq!(r.release(1).unwrap(), true);
    assert_eq!(r.num_registered(), 2);
}

#[test]
fn test_release_all_counts_distinct_live_ids() {
    let mut r = PointRegistry::new(2);
    for _ in 0..4 {
        r.register(2).unwrap();
    }
    let (released, res) = r.release_all(&vec![1, 3, 1]);
    assert_eq!(released, vec![1, 3]);
    assert!(res.is_ok());
    assert_eq!(r.num_present(), 2);
    let (released, res) = r.release_all(&vec![1, 3]);
    assert!(released.is_empty());
    assert!(res.is_ok());
    assert_eq!(r.num_present(), 2);
    let (released, res) = r.release_all(&vec![0, 9, 2]);
    assert_eq!(released, vec![0]);
    assert!(matches!(res, Err(HdbscanError::PointNotFound(9))));
    assert_eq!(r.num_present(), 1);
}
