//! Tests of the property regrouper.

use jaeger_thrift::properties::check_props;
use jaeger_thrift::properties::Properties;
use jaeger_thrift::reorder_properties;

#[test]
fn regroups_interleaved_runs_by_span_id() {
    let p = Properties {
        span_ids: vec![40, 30, 40],
        property_lens: vec![3, 2, 4],
        payload: b"aaabbcccc".to_vec(),
    };
    let (pairs, index) = reorder_properties(&p);

    // Sorted by span id; the two runs of span 40 keep their input order.
    assert_eq!(pairs.len(), 3);
    assert_eq!(pairs[0].0, 30);
    assert_eq!(pairs[0].1, b"bb".to_vec());
    assert_eq!(pairs[1].0, 40);
    assert_eq!(pairs[1].1, b"aaa".to_vec());
    assert_eq!(pairs[2].0, 40);
    assert_eq!(pairs[2].1, b"cccc".to_vec());

    // The index ranges cover the sorted sequence with no overlap or gap.
    assert_eq!(index.len(), 2);
    assert_eq!(index.get(&30), Some(&(0, 1)));
    assert_eq!(index.get(&40), Some(&(1, 2)));
    assert_eq!(index.get(&99), None);
}

#[test]
fn groups_cover_every_run_exactly_once() {
    let p = Properties {
        span_ids: vec![5, 1, 5, 3, 1],
        property_lens: vec![1, 1, 1, 1, 1],
        payload: b"abcde".to_vec(),
    };
    let (pairs, index) = reorder_properties(&p);
    assert_eq!(pairs.len(), 5);

    // Every run appears in exactly one group, keyed by its own id.
    let mut covered = vec![false; pairs.len()];
    for (&id, &(start, count)) in index.iter() {
        assert!(count > 0);
        for k in start..start + count {
            assert!(!covered[k]);
            covered[k] = true;
            assert_eq!(pairs[k].0, id);
        }
    }
    assert!(covered.iter().all(|&c| c));

    // Grouped in ascending id order, input order inside a group.
    assert_eq!(pairs[0], (1, b"b".to_vec()));
    assert_eq!(pairs[1], (1, b"e".to_vec()));
    assert_eq!(pairs[2], (3, b"d".to_vec()));
    assert_eq!(pairs[3], (5, b"a".to_vec()));
    assert_eq!(pairs[4], (5, b"c".to_vec()));
}

#[test]
fn empty_arrays_give_empty_outputs() {
    let p = Properties { span_ids: vec![], property_lens: vec![], payload: vec![] };
    let (pairs, index) = reorder_properties(&p);
    assert!(pairs.is_empty());
    assert!(index.is_empty());

    let q = Properties { span_ids: vec![], property_lens: vec![7], payload: b"junk".to_vec() };
    let (pairs, index) = reorder_properties(&q);
    assert!(pairs.is_empty());
    assert!(index.is_empty());
}

#[test]
fn check_props_accepts_well_formed_arrays() {
    let p = Properties {
        span_ids: vec![1, 2],
        property_lens: vec![2, 2],
        payload: b"abcd".to_vec(),
    };
    assert!(check_props(&p));
    // A shorter buffer use is fine: trailing payload bytes are ignored.
    let q = Properties {
        span_ids: vec![1],
        property_lens: vec![2],
        payload: b"abcd".to_vec(),
    };
    assert!(check_props(&q));
}

#[test]
fn check_props_rejects_mismatched_arrays() {
    let p = Properties {
        span_ids: vec![1, 2],
        property_lens: vec![2],
        payload: b"abcd".to_vec(),
    };
    assert!(!check_props(&p));
    let q = Properties {
        span_ids: vec![1],
        property_lens: vec![9],
        payload: b"abcd".to_vec(),
    };
    assert!(!check_props(&q));
}
