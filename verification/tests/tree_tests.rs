use forward_secure_sig::errors::ForwardSecureSignatureError;
use forward_secure_sig::tree::{
    calculate_l, from_node_num_to_path, interval_of, is_ancestor, lca, path_to_node_num,
};

#[test]
fn test_calculate_l_values() {
    assert_eq!(calculate_l(3).unwrap(), 2);
    assert_eq!(calculate_l(7).unwrap(), 3);
    assert_eq!(calculate_l(15).unwrap(), 4);
    assert_eq!(calculate_l(65535).unwrap(), 16);
    assert_eq!(calculate_l(1048575).unwrap(), 20);
    assert!(matches!(
        calculate_l(1).unwrap_err(),
        ForwardSecureSignatureError::InvalidMaxTimePeriod { t_max: 1 }
    ));
    assert!(matches!(
        calculate_l(10).unwrap_err(),
        ForwardSecureSignatureError::NonPowerOfTwo { t_max: 10 }
    ));
}

#[test]
fn test_node_paths_for_small_tree() {
    // Pre-order numbering for l = 3: seven nodes.
    assert_eq!(from_node_num_to_path(1, 3).unwrap(), Vec::<u8>::new());
    assert_eq!(from_node_num_to_path(2, 3).unwrap(), vec![1]);
    assert_eq!(from_node_num_to_path(3, 3).unwrap(), vec![1, 1]);
    assert_eq!(from_node_num_to_path(4, 3).unwrap(), vec![1, 2]);
    assert_eq!(from_node_num_to_path(5, 3).unwrap(), vec![2]);
    assert_eq!(from_node_num_to_path(6, 3).unwrap(), vec![2, 1]);
    assert_eq!(from_node_num_to_path(7, 3).unwrap(), vec![2, 2]);
    assert!(matches!(
        from_node_num_to_path(8, 3).unwrap_err(),
        ForwardSecureSignatureError::InvalidNodeNum { t: 8, l: 3 }
    ));
    assert!(matches!(
        from_node_num_to_path(0, 3).unwrap_err(),
        ForwardSecureSignatureError::InvalidNodeNum { t: 0, l: 3 }
    ));
}

#[test]
fn test_path_to_node_num_roundtrip() {
    for t in 1..=15u128 {
        let p = from_node_num_to_path(t, 4).unwrap();
        assert_eq!(path_to_node_num(&p, 4).unwrap(), t);
    }
    let e = path_to_node_num(&vec![1, 3], 4).unwrap_err();
    assert!(matches!(e, ForwardSecureSignatureError::InvalidPath { .. }));
    let e = path_to_node_num(&vec![1, 2, 1, 2], 4).unwrap_err();
    assert!(matches!(e, ForwardSecureSignatureError::InvalidPath { .. }));
}

#[test]
fn test_interval_of_subtrees() {
    // l = 3: the root covers everything, each subtree one contiguous block.
    assert_eq!(interval_of(&Vec::new(), 3).unwrap(), (1, 7));
    assert_eq!(interval_of(&vec![1], 3).unwrap(), (2, 4));
    assert_eq!(interval_of(&vec![2], 3).unwrap(), (5, 7));
    assert_eq!(interval_of(&vec![1, 2], 3).unwrap(), (4, 4));
    assert_eq!(interval_of(&vec![2, 1], 3).unwrap(), (6, 6));
}

#[test]
fn test_is_ancestor_and_lca() {
    assert!(is_ancestor(&Vec::new(), &vec![1, 2]));
    assert!(is_ancestor(&vec![1], &vec![1, 2]));
    assert!(is_ancestor(&vec![1, 2], &vec![1, 2]));
    assert!(!is_ancestor(&vec![2], &vec![1, 2]));
    assert!(!is_ancestor(&vec![1, 2, 1], &vec![1, 2]));

    assert_eq!(lca(&vec![1, 1, 2], &vec![1, 2, 1]), vec![1]);
    assert_eq!(lca(&vec![2, 1], &vec![2, 1, 2]), vec![2, 1]);
    assert_eq!(lca(&vec![1], &vec![2]), Vec::<u8>::new());
}
