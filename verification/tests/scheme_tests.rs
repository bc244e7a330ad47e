use forward_secure_sig::errors::ForwardSecureSignatureError;
use forward_secure_sig::keys::{setup, InMemorySigKeyDatabase, SigManager};
use forward_secure_sig::signature::Signature;

use amcl_wrapper::group_elem::GroupElement;
use amcl_wrapper::group_elem_g1::G1;
use amcl_wrapper::group_elem_g2::G2;
use forward_secure_sig::tree::calculate_l;

#[test]
fn test_simple_update_punctures_past() {
    let t_max = 7;
    let l = calculate_l(t_max).unwrap();
    let mut db = InMemorySigKeyDatabase::new();
    let (gens, vk, mut set) = setup(t_max, "test_pixel".as_bytes(), &mut db).unwrap();

    for _ in 0..4 {
        set.simple_update(&gens, &mut db).unwrap();
    }
    let msg = "Hello".as_bytes();
    let sk = SigManager::get_key(5, l, &db).unwrap();
    let sig = Signature::new(msg, 5, l, &gens, &sk).unwrap();
    assert!(sig.verify(msg, 5, l, &gens, &vk).unwrap());

    // The key for the first period was punctured on the way.
    let e = SigManager::get_key(1, l, &db).unwrap_err();
    assert!(matches!(e, ForwardSecureSignatureError::SigkeyNotFound { t: 1 }));
}

#[test]
fn test_fast_forward_then_backward_rejected() {
    let t_max = 15;
    let l = calculate_l(t_max).unwrap();
    let mut db = InMemorySigKeyDatabase::new();
    let (gens, vk, mut set) = setup(t_max, "test_pixel".as_bytes(), &mut db).unwrap();

    set.fast_forward_update(8, &gens, &mut db).unwrap();
    let msg = "Hello".as_bytes();
    let sk = SigManager::get_key(8, l, &db).unwrap();
    let sig = Signature::new(msg, 8, l, &gens, &sk).unwrap();
    assert!(sig.verify(msg, 8, l, &gens, &vk).unwrap());

    let e = set.fast_forward_update(6, &gens, &mut db).unwrap_err();
    assert!(matches!(
        e,
        ForwardSecureSignatureError::SigkeyUpdateBackward { old_t: 6, current_t: 8 }
    ));
    // The state is untouched: the key for period 8 is still there.
    assert!(SigManager::get_key(8, l, &db).is_ok());

    let e = set.fast_forward_update(8, &gens, &mut db).unwrap_err();
    assert!(matches!(e, ForwardSecureSignatureError::SigkeyAlreadyUpdated { t: 8 }));
}

#[test]
fn test_aggr_sig_wrong_message_fails() {
    let t_max = 7;
    let l = calculate_l(t_max).unwrap();
    let t = 3u128;

    let mut db1 = InMemorySigKeyDatabase::new();
    let (gens, vk1, mut set1) = setup(t_max, "test_pixel".as_bytes(), &mut db1).unwrap();
    let mut db2 = InMemorySigKeyDatabase::new();
    let (_gens2, vk2, mut set2) = setup(t_max, "test_pixel".as_bytes(), &mut db2).unwrap();

    set1.fast_forward_update(t, &gens, &mut db1).unwrap();
    set2.fast_forward_update(t, &gens, &mut db2).unwrap();

    let msg = "Hello".as_bytes();
    let sk1 = SigManager::get_key(t, l, &db1).unwrap();
    let sig1 = Signature::new(msg, t, l, &gens, &sk1).unwrap();
    let sk2 = SigManager::get_key(t, l, &db2).unwrap();
    let sig2 = Signature::new(msg, t, l, &gens, &sk2).unwrap();

    let asig = Signature::aggregate(vec![&sig1, &sig2]);
    assert!(asig.verify_aggregated(msg, t, l, vec![&vk1, &vk2], &gens).unwrap());

    // One signer signed a different message: the aggregate must not verify.
    let other = "Hella".as_bytes();
    let sig2_bad = Signature::new(other, t, l, &gens, &sk2).unwrap();
    let asig_bad = Signature::aggregate(vec![&sig1, &sig2_bad]);
    assert!(!asig_bad.verify_aggregated(msg, t, l, vec![&vk1, &vk2], &gens).unwrap());
}

#[test]
fn test_boundary_first_and_last_periods() {
    let t_max = 7;
    let l = calculate_l(t_max).unwrap();
    let mut db = InMemorySigKeyDatabase::new();
    let (gens, vk, mut set) = setup(t_max, "test_pixel".as_bytes(), &mut db).unwrap();

    let msg = "Hello".as_bytes();
    let sk1 = SigManager::get_key(1, l, &db).unwrap();
    let sig1 = Signature::new(msg, 1, l, &gens, &sk1).unwrap();
    assert!(sig1.verify(msg, 1, l, &gens, &vk).unwrap());

    set.fast_forward_update(7, &gens, &mut db).unwrap();
    let sk7 = SigManager::get_key(7, l, &db).unwrap();
    let sig7 = Signature::new(msg, 7, l, &gens, &sk7).unwrap();
    assert!(sig7.verify(msg, 7, l, &gens, &vk).unwrap());

    // Updating past the horizon is rejected.
    let e = set.fast_forward_update(8, &gens, &mut db).unwrap_err();
    assert!(matches!(e, ForwardSecureSignatureError::InvalidNodeNum { t: 8, l: 3 }));
}

#[test]
fn test_engine_exhausted_after_horizon() {
    let t_max = 65535;
    let l = calculate_l(t_max).unwrap();
    let mut db = InMemorySigKeyDatabase::new();
    let (gens, vk, mut set) = setup(t_max, "test_pixel".as_bytes(), &mut db).unwrap();
    let msg = "Hello".as_bytes();

    set.fast_forward_update(1024, &gens, &mut db).unwrap();
    let sk = SigManager::get_key(1024, l, &db).unwrap();
    let sig = Signature::new(msg, 1024, l, &gens, &sk).unwrap();
    assert!(sig.verify(msg, 1024, l, &gens, &vk).unwrap());

    set.fast_forward_update(65535, &gens, &mut db).unwrap();
    let sk = SigManager::get_key(65535, l, &db).unwrap();
    let sig = Signature::new(msg, 65535, l, &gens, &sk).unwrap();
    assert!(sig.verify(msg, 65535, l, &gens, &vk).unwrap());

    // One more step erases the last node secret: every period is now gone.
    set.simple_update(&gens, &mut db).unwrap();
    for t in [1u128, 2, 1024, 65534, 65535] {
        let e = SigManager::get_key(t, l, &db).unwrap_err();
        assert!(matches!(e, ForwardSecureSignatureError::SigkeyNotFound { .. }));
    }
    // And the exhausted engine rejects any further step.
    assert!(set.simple_update(&gens, &mut db).is_err());
}

#[test]
fn test_identity_points_rejected() {
    let t_max = 7;
    let l = calculate_l(t_max).unwrap();
    let mut db = InMemorySigKeyDatabase::new();
    let (gens, vk, _set) = setup(t_max, "test_pixel".as_bytes(), &mut db).unwrap();

    let msg = "Hello".as_bytes();
    let bogus = Signature { sigma_1: G1::identity(), sigma_2: G2::identity() };
    assert!(!bogus.verify(msg, 1, l, &gens, &vk).unwrap());

    let sk = SigManager::get_key(1, l, &db).unwrap();
    let good = Signature::new(msg, 1, l, &gens, &sk).unwrap();
    let half_bogus = Signature { sigma_1: G1::identity(), sigma_2: good.duplicate().sigma_2 };
    assert!(!half_bogus.verify(msg, 1, l, &gens, &vk).unwrap());
    let other_half = Signature { sigma_1: good.duplicate().sigma_1, sigma_2: G2::identity() };
    assert!(!other_half.verify(msg, 1, l, &gens, &vk).unwrap());
}

#[test]
fn test_verify_wrong_message_or_period_fails() {
    let t_max = 15;
    let l = calculate_l(t_max).unwrap();
    let mut db = InMemorySigKeyDatabase::new();
    let (gens, vk, mut set) = setup(t_max, "test_pixel".as_bytes(), &mut db).unwrap();

    set.fast_forward_update(5, &gens, &mut db).unwrap();
    let msg = "Hello".as_bytes();
    let sk = SigManager::get_key(5, l, &db).unwrap();
    let sig = Signature::new(msg, 5, l, &gens, &sk).unwrap();
    assert!(sig.verify(msg, 5, l, &gens, &vk).unwrap());
    assert!(!sig.verify("Hellp".as_bytes(), 5, l, &gens, &vk).unwrap());
    assert!(!sig.verify(msg, 6, l, &gens, &vk).unwrap());
}

#[test]
fn test_setup_rejects_bad_horizons() {
    let mut db = InMemorySigKeyDatabase::new();
    let e = setup(2, "test_pixel".as_bytes(), &mut db).unwrap_err();
    assert!(matches!(e, ForwardSecureSignatureError::InvalidMaxTimePeriod { t_max: 2 }));

    let mut db = InMemorySigKeyDatabase::new();
    let e = setup(u128::MAX, "test_pixel".as_bytes(), &mut db).unwrap_err();
    assert!(matches!(e, ForwardSecureSignatureError::InvalidMaxTimePeriod { .. }));

    let mut db = InMemorySigKeyDatabase::new();
    let e = setup(6, "test_pixel".as_bytes(), &mut db).unwrap_err();
    assert!(matches!(e, ForwardSecureSignatureError::NonPowerOfTwo { t_max: 6 }));

    let mut db = InMemorySigKeyDatabase::new();
    let e = setup(12, "test_pixel".as_bytes(), &mut db).unwrap_err();
    assert!(matches!(e, ForwardSecureSignatureError::NonPowerOfTwo { t_max: 12 }));
}

#[test]
fn test_sign_rejects_bad_arguments() {
    let t_max = 7;
    let l = calculate_l(t_max).unwrap();
    let mut db = InMemorySigKeyDatabase::new();
    let (gens, _vk, _set) = setup(t_max, "test_pixel".as_bytes(), &mut db).unwrap();
    let msg = "Hello".as_bytes();
    let sk = SigManager::get_key(1, l, &db).unwrap();

    // A period out of range is rejected.
    let e = Signature::new(msg, 8, l, &gens, &sk).unwrap_err();
    assert!(matches!(e, ForwardSecureSignatureError::InvalidNodeNum { t: 8, l: 3 }));
    let e = Signature::new(msg, 0, l, &gens, &sk).unwrap_err();
    assert!(matches!(e, ForwardSecureSignatureError::InvalidNodeNum { t: 0, l: 3 }));

    // A generator set too small for the tree parameter is rejected, by
    // signing and by verification alike.
    let e = Signature::new(msg, 1, 4, &gens, &sk).unwrap_err();
    assert!(matches!(e, ForwardSecureSignatureError::NotEnoughGenerators { n: 6 }));
    let sig = Signature::new(msg, 1, l, &gens, &sk).unwrap();
    let e = sig.verify(msg, 1, 4, &gens, &_vk).unwrap_err();
    assert!(matches!(e, ForwardSecureSignatureError::NotEnoughGenerators { n: 6 }));

    // An out-of-range period is also rejected by get_key.
    let e = SigManager::get_key(9, l, &db).unwrap_err();
    assert!(matches!(e, ForwardSecureSignatureError::InvalidNodeNum { t: 9, l: 3 }));
}

#[test]
fn test_deterministic_distinct_inputs_differ() {
    let t_max = 7;
    let l = calculate_l(t_max).unwrap();
    let mut db = InMemorySigKeyDatabase::new();
    let (gens, vk, mut set) = setup(t_max, "test_pixel".as_bytes(), &mut db).unwrap();

    set.fast_forward_update(2, &gens, &mut db).unwrap();
    let sk = SigManager::get_key(2, l, &db).unwrap();
    let msg = "Hello".as_bytes();

    let sig_a = Signature::new_deterministic(msg, 2, l, &gens, &sk).unwrap();
    let sig_b = Signature::new_deterministic(msg, 2, l, &gens, &sk).unwrap();
    assert_eq!(sig_a, sig_b);
    assert!(sig_a.verify(msg, 2, l, &gens, &vk).unwrap());

    // A different message gives a different deterministic signature.
    let sig_c = Signature::new_deterministic("Hellp".as_bytes(), 2, l, &gens, &sk).unwrap();
    assert_ne!(sig_a, sig_c);
}
