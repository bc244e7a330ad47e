use forward_secure_sig::errors::ForwardSecureSignatureError;
use forward_secure_sig::keys::{
    setup, GeneratorSet, InMemorySigKeyDatabase, Keypair, SigManager, Verkey,
};
use forward_secure_sig::signature::Signature;
use forward_secure_sig::tree::calculate_l;

// For benchmarking
use std::time::Instant;

pub fn create_sig_and_verify(
    t: u128,
    vk: &Verkey,
    l: u8,
    gens: &GeneratorSet,
    db: &InMemorySigKeyDatabase,
) {
    let sk = SigManager::get_key(t, l, db).unwrap();
    let msg = "Hello".as_bytes();
    let sig = Signature::new(msg, t, l, gens, &sk).unwrap();
    assert!(sig.verify(msg, t, l, gens, vk).unwrap());
}

fn fast_forward_sig_and_verify(
    set: &mut SigManager,
    t: u128,
    vk: &Verkey,
    l: u8,
    gens: &GeneratorSet,
    db: &mut InMemorySigKeyDatabase,
) {
    set.fast_forward_update(t, gens, db).unwrap();
    create_sig_and_verify(t, vk, l, gens, db);
}

#[test]
fn test_sig_verify_initial() {
    let t_max = 7;
    let l = calculate_l(t_max).unwrap();
    let mut db = InMemorySigKeyDatabase::new();
    let (gens, vk, _set) = setup(t_max, "test_pixel".as_bytes(), &mut db).unwrap();
    let t = 1u128;
    create_sig_and_verify(t, &vk, l, &gens, &db);
}

#[test]
fn test_sig_deterministic() {
    let t_max = 7;
    let l = calculate_l(t_max).unwrap();
    let mut db = InMemorySigKeyDatabase::new();
    let (gens, vk, mut set) = setup(t_max, "test_pixel".as_bytes(), &mut db).unwrap();
    let t1 = 1u128;
    let msg = "Hello".as_bytes();
    let sk1 = SigManager::get_key(t1, l, &db).unwrap();

    // In-deterministic and deterministic signatures for t=1

    let sig1 = Signature::new(msg, t1, l, &gens, &sk1).unwrap();
    let sig1_deterministic = Signature::new_deterministic(msg, t1, l, &gens, &sk1).unwrap();
    // In-deterministic sigs should verify
    assert!(sig1.verify(msg, t1, l, &gens, &vk).unwrap());
    assert!(sig1_deterministic.verify(msg, t1, l, &gens, &vk).unwrap());

    let sig2 = Signature::new(msg, t1, l, &gens, &sk1).unwrap();
    let sig2_deterministic = Signature::new_deterministic(msg, t1, l, &gens, &sk1).unwrap();
    // Deterministic sigs should verify
    assert!(sig2.verify(msg, t1, l, &gens, &vk).unwrap());
    assert!(sig2_deterministic.verify(msg, t1, l, &gens, &vk).unwrap());

    // Deterministic sigs for same message and secret key should be equal
    assert_eq!(sig1_deterministic, sig2_deterministic);
    // In-deterministic sigs for same message and secret key should be different
    assert_ne!(sig1, sig2);

    // In-deterministic and deterministic signatures for t=2, doing the same checks as above
    let t2 = 2u128;
    set.simple_update(&gens, &mut db).unwrap();
    let sk2 = SigManager::get_key(t2, l, &db).unwrap();

    let sig3 = Signature::new(msg, t2, l, &gens, &sk2).unwrap();
    let sig3_deterministic = Signature::new_deterministic(msg, t2, l, &gens, &sk2).unwrap();
    assert!(sig3.verify(msg, t2, l, &gens, &vk).unwrap());
    assert!(sig3_deterministic.verify(msg, t2, l, &gens, &vk).unwrap());

    let sig4 = Signature::new(msg, t2, l, &gens, &sk2).unwrap();
    let sig4_deterministic = Signature::new_deterministic(msg, t2, l, &gens, &sk2).unwrap();
    assert!(sig4.verify(msg, t2, l, &gens, &vk).unwrap());
    assert!(sig4_deterministic.verify(msg, t2, l, &gens, &vk).unwrap());

    assert_eq!(sig3_deterministic, sig4_deterministic);
    assert_ne!(sig3, sig4);

    // deterministic signatures for different secret keys should differ
    assert_ne!(sig1_deterministic, sig3_deterministic);
}

#[test]
fn test_sig_verify_post_simple_update_by_7() {
    let t_max = 7;
    let l = calculate_l(t_max).unwrap();
    let mut db = InMemorySigKeyDatabase::new();
    let (gens, vk, mut set) = setup(t_max, "test_pixel".as_bytes(), &mut db).unwrap();

    // t=2
    set.simple_update(&gens, &mut db).unwrap();
    create_sig_and_verify(2u128, &vk, l, &gens, &db);
    create_sig_and_verify(5u128, &vk, l, &gens, &db);

    // t=3
    set.simple_update(&gens, &mut db).unwrap();
    create_sig_and_verify(3u128, &vk, l, &gens, &db);
    create_sig_and_verify(4u128, &vk, l, &gens, &db);

    // t=4
    set.simple_update(&gens, &mut db).unwrap();
    create_sig_and_verify(4u128, &vk, l, &gens, &db);
    create_sig_and_verify(5u128, &vk, l, &gens, &db);

    // t=5
    set.simple_update(&gens, &mut db).unwrap();
    create_sig_and_verify(5u128, &vk, l, &gens, &db);

    // t=6
    set.simple_update(&gens, &mut db).unwrap();
    create_sig_and_verify(6u128, &vk, l, &gens, &db);
    create_sig_and_verify(7u128, &vk, l, &gens, &db);

    // t=7
    set.simple_update(&gens, &mut db).unwrap();
    create_sig_and_verify(7u128, &vk, l, &gens, &db);
}

#[test]
fn test_sig_verify_post_simple_update_by_15() {
    let t_max = 15;
    let l = calculate_l(t_max).unwrap();
    let mut db = InMemorySigKeyDatabase::new();
    let (gens, vk, mut set) = setup(t_max, "test_pixel".as_bytes(), &mut db).unwrap();

    // t=2
    set.simple_update(&gens, &mut db).unwrap();
    create_sig_and_verify(2u128, &vk, l, &gens, &db);
    create_sig_and_verify(9u128, &vk, l, &gens, &db);

    // t=3
    set.simple_update(&gens, &mut db).unwrap();
    create_sig_and_verify(3u128, &vk, l, &gens, &db);
    create_sig_and_verify(6u128, &vk, l, &gens, &db);
    create_sig_and_verify(9u128, &vk, l, &gens, &db);

    // t=4
    set.simple_update(&gens, &mut db).unwrap();
    create_sig_and_verify(4u128, &vk, l, &gens, &db);
    create_sig_and_verify(5u128, &vk, l, &gens, &db);
    create_sig_and_verify(6u128, &vk, l, &gens, &db);
    create_sig_and_verify(9u128, &vk, l, &gens, &db);

    // t=5
    set.simple_update(&gens, &mut db).unwrap();
    create_sig_and_verify(5u128, &vk, l, &gens, &db);
    create_sig_and_verify(6u128, &vk, l, &gens, &db);
    create_sig_and_verify(9u128, &vk, l, &gens, &db);

    // t=6
    set.simple_update(&gens, &mut db).unwrap();
    create_sig_and_verify(6u128, &vk, l, &gens, &db);
    create_sig_and_verify(9u128, &vk, l, &gens, &db);

    // t=7
    set.simple_update(&gens, &mut db).unwrap();
    create_sig_and_verify(7u128, &vk, l, &gens, &db);
    create_sig_and_verify(8u128, &vk, l, &gens, &db);
    create_sig_and_verify(9u128, &vk, l, &gens, &db);

    // t=8
    set.simple_update(&gens, &mut db).unwrap();

    // t=9
    set.simple_update(&gens, &mut db).unwrap();
    create_sig_and_verify(9u128, &vk, l, &gens, &db);

    // t=10
    set.simple_update(&gens, &mut db).unwrap();
    create_sig_and_verify(10u128, &vk, l, &gens, &db);
    create_sig_and_verify(13u128, &vk, l, &gens, &db);

    // t=11
    set.simple_update(&gens, &mut db).unwrap();
    create_sig_and_verify(11u128, &vk, l, &gens, &db);
    create_sig_and_verify(12u128, &vk, l, &gens, &db);
    create_sig_and_verify(13u128, &vk, l, &gens, &db);
}

#[test]
fn test_sig_verify_post_fast_forward_update_7() {
    let t_max = 7;
    let l = calculate_l(t_max).unwrap();

    {
        let mut db = InMemorySigKeyDatabase::new();
        let (gens, vk, mut set) = setup(t_max, "test_pixel".as_bytes(), &mut db).unwrap();

        let t = 3;
        fast_forward_sig_and_verify(&mut set, t, &vk, l, &gens, &mut db);
    }

    {
        let mut db = InMemorySigKeyDatabase::new();
        let (gens, vk, mut set) = setup(t_max, "test_pixel".as_bytes(), &mut db).unwrap();

        let t = 4;
        fast_forward_sig_and_verify(&mut set, t, &vk, l, &gens, &mut db);
    }

    {
        let mut db = InMemorySigKeyDatabase::new();
        let (gens, vk, mut set) = setup(t_max, "test_pixel".as_bytes(), &mut db).unwrap();

        let t = 5;
        fast_forward_sig_and_verify(&mut set, t, &vk, l, &gens, &mut db);
    }

    {
        let mut db = InMemorySigKeyDatabase::new();
        let (gens, vk, mut set) = setup(t_max, "test_pixel".as_bytes(), &mut db).unwrap();

        let t = 6;
        fast_forward_sig_and_verify(&mut set, t, &vk, l, &gens, &mut db);
    }

    {
        let mut db = InMemorySigKeyDatabase::new();
        let (gens, vk, mut set) = setup(t_max, "test_pixel".as_bytes(), &mut db).unwrap();

        let t = 7;
        fast_forward_sig_and_verify(&mut set, t, &vk, l, &gens, &mut db);
    }
}

#[test]
fn test_sig_verify_post_fast_forward_update_repeat_7() {
    let t_max = 7;
    let l = calculate_l(t_max).unwrap();
    let mut db = InMemorySigKeyDatabase::new();
    let (gens, vk, mut set) = setup(t_max, "test_pixel".as_bytes(), &mut db).unwrap();

    let mut t = 2;
    fast_forward_sig_and_verify(&mut set, t, &vk, l, &gens, &mut db);

    t = 4;
    fast_forward_sig_and_verify(&mut set, t, &vk, l, &gens, &mut db);

    t = 6;
    fast_forward_sig_and_verify(&mut set, t, &vk, l, &gens, &mut db);
}

#[test]
fn test_sig_verify_post_fast_forward_update_repeat_15() {
    let t_max = 15;
    let l = calculate_l(t_max).unwrap();

    {
        let mut db = InMemorySigKeyDatabase::new();
        let (gens, vk, mut set) = setup(t_max, "test_pixel".as_bytes(), &mut db).unwrap();

        let mut t = 3;
        fast_forward_sig_and_verify(&mut set, t, &vk, l, &gens, &mut db);

        t = 8;
        fast_forward_sig_and_verify(&mut set, t, &vk, l, &gens, &mut db);

        t = 13;
        fast_forward_sig_and_verify(&mut set, t, &vk, l, &gens, &mut db);
    }

    {
        let mut db = InMemorySigKeyDatabase::new();
        let (gens, vk, mut set) = setup(t_max, "test_pixel".as_bytes(), &mut db).unwrap();

        let mut t = 6;
        fast_forward_sig_and_verify(&mut set, t, &vk, l, &gens, &mut db);

        t = 8;
        fast_forward_sig_and_verify(&mut set, t, &vk, l, &gens, &mut db);

        t = 13;
        fast_forward_sig_and_verify(&mut set, t, &vk, l, &gens, &mut db);
    }
}

#[test]
fn test_sig_verify_post_fast_forward_update_repeat_65535() {
    let t_max = 65535;
    let l = calculate_l(t_max).unwrap();

    {
        let mut db = InMemorySigKeyDatabase::new();
        let (gens, vk, mut set) = setup(t_max, "test_pixel".as_bytes(), &mut db).unwrap();

        let mut t = 4;
        fast_forward_sig_and_verify(&mut set, t, &vk, l, &gens, &mut db);

        t = 15;
        fast_forward_sig_and_verify(&mut set, t, &vk, l, &gens, &mut db);

        t = 16;
        fast_forward_sig_and_verify(&mut set, t, &vk, l, &gens, &mut db);

        t = 32;
        fast_forward_sig_and_verify(&mut set, t, &vk, l, &gens, &mut db);

        t = 1024;
        fast_forward_sig_and_verify(&mut set, t, &vk, l, &gens, &mut db);

        t = 4095;
        fast_forward_sig_and_verify(&mut set, t, &vk, l, &gens, &mut db);

        t = 65535;
        fast_forward_sig_and_verify(&mut set, t, &vk, l, &gens, &mut db);
    }

    {
        let mut db = InMemorySigKeyDatabase::new();
        let (gens, vk, mut set) = setup(t_max, "test_pixel".as_bytes(), &mut db).unwrap();

        let mut t = 15;
        fast_forward_sig_and_verify(&mut set, t, &vk, l, &gens, &mut db);

        t = 1023;
        fast_forward_sig_and_verify(&mut set, t, &vk, l, &gens, &mut db);

        t = 8191;
        fast_forward_sig_and_verify(&mut set, t, &vk, l, &gens, &mut db);

        t = 16384;
        fast_forward_sig_and_verify(&mut set, t, &vk, l, &gens, &mut db);
    }
}

#[test]
fn test_aggr_sig_verify() {
    let t_max = 7;
    let l = calculate_l(t_max).unwrap();
    let mut t = 1u128;

    let mut db1 = InMemorySigKeyDatabase::new();
    let (gens, vk1, mut sigkey_set1) = setup(t_max, "test_pixel".as_bytes(), &mut db1).unwrap();

    let mut db2 = InMemorySigKeyDatabase::new();
    let (keypair2, mut sigkey_set2) = Keypair::new(t_max, &gens, &mut db2).unwrap();
    let vk2 = keypair2.ver_key;

    create_sig_and_verify(t, &vk1, l, &gens, &db1);
    create_sig_and_verify(t, &vk2, l, &gens, &db2);

    {
        let msg = "Hello".as_bytes();
        let sk1 = SigManager::get_key(t, l, &db1).unwrap();
        let sig1 = Signature::new(msg, t, l, &gens, &sk1).unwrap();
        let sk2 = SigManager::get_key(t, l, &db2).unwrap();
        let sig2 = Signature::new(msg, t, l, &gens, &sk2).unwrap();

        let asig = Signature::aggregate(vec![&sig1, &sig2]);
        assert!(asig.verify_aggregated(msg, t, l, vec![&vk1, &vk2], &gens).unwrap());
    }

    {
        t = 3;
        sigkey_set1.fast_forward_update(t, &gens, &mut db1).unwrap();
        sigkey_set2.fast_forward_update(t, &gens, &mut db2).unwrap();

        let msg = "Hello".as_bytes();
        let sk1 = SigManager::get_key(t, l, &db1).unwrap();
        let sig1 = Signature::new(msg, t, l, &gens, &sk1).unwrap();
        let sk2 = SigManager::get_key(t, l, &db2).unwrap();
        let sig2 = Signature::new(msg, t, l, &gens, &sk2).unwrap();

        let asig = Signature::aggregate(vec![&sig1, &sig2]);
        assert!(asig.verify_aggregated(msg, t, l, vec![&vk1, &vk2], &gens).unwrap());
    }

    {
        t = 5;
        sigkey_set1.fast_forward_update(t, &gens, &mut db1).unwrap();
        sigkey_set2.fast_forward_update(t, &gens, &mut db2).unwrap();

        let msg = "Hello".as_bytes();
        let sk1 = SigManager::get_key(t, l, &db1).unwrap();
        let sig1 = Signature::new(msg, t, l, &gens, &sk1).unwrap();
        let sk2 = SigManager::get_key(t, l, &db2).unwrap();
        let sig2 = Signature::new(msg, t, l, &gens, &sk2).unwrap();

        let asig = Signature::aggregate(vec![&sig1, &sig2]);
        assert!(asig.verify_aggregated(msg, t, l, vec![&vk1, &vk2], &gens).unwrap());
    }
}

#[test]
fn timing_sig_verify_post_update_65535() {
    // For tree with l=16, supports 2^16 - 1 = 65535 keys
    // Benchmarking signature time with only simple update as fast forward update does not matter for signing.
    let t_max = 65535;
    let l = calculate_l(t_max).unwrap();
    let msg = "Hello".as_bytes();
    let mut db = InMemorySigKeyDatabase::new();
    let (gens, vk, mut set) = setup(t_max, "test_pixel".as_bytes(), &mut db).unwrap();

    for t in 2..20 {
        set.simple_update(&gens, &mut db).unwrap();
        let sk = SigManager::get_key(t, l, &db).unwrap();
        let start = Instant::now();
        let sig = Signature::new(msg, t, l, &gens, &sk).unwrap();
        println!("For l={}, time to sign for t={} is {:?}", l, t, start.elapsed());
        let start = Instant::now();
        assert!(sig.verify(msg, t, l, &gens, &vk).unwrap());
        println!("For l={}, time to verify for t={} is {:?}", l, t, start.elapsed());
    }
}

#[test]
fn timing_sig_verify_post_update_1048575() {
    // For tree with l=20, supports 2^20 - 1 = 1048575 keys
    // Benchmarking signature time with only simple update as fast forward update does not matter for signing.

    let t_max = 1048575;
    let l = calculate_l(t_max).unwrap();
    let msg = "Hello".as_bytes();
    let mut db = InMemorySigKeyDatabase::new();
    let (gens, vk, mut set) = setup(t_max, "test_pixel".as_bytes(), &mut db).unwrap();

    for t in 2..30 {
        set.simple_update(&gens, &mut db).unwrap();
        let sk = SigManager::get_key(t, l, &db).unwrap();
        let start = Instant::now();
        let sig = Signature::new(msg, t, l, &gens, &sk).unwrap();
        println!("For l={}, time to sign for t={} is {:?}", l, t, start.elapsed());
        let start = Instant::now();
        assert!(sig.verify(msg, t, l, &gens, &vk).unwrap());
        println!("For l={}, time to verify for t={} is {:?}", l, t, start.elapsed());
    }
}
