use phala_core::keeper::{calc_cache_quotas, Contract, ContractsKeeper, TOTAL_MEMORY};

fn sorted<T: Ord>(mut v: Vec<T>) -> Vec<T> {
    v.sort();
    v
}

fn keeper_of(entries: &[(&[u8], u32)]) -> ContractsKeeper {
    let mut contracts = ContractsKeeper::new();
    for (address, weight) in entries {
        contracts.insert(Contract::new(address.to_vec(), *weight));
    }
    contracts
}

#[test]
fn zero_quotas_works() {
    let mut contracts = ContractsKeeper::new();
    contracts.insert(Contract::new(b"foo".to_vec(), 0_u32));
    contracts.insert(Contract::new(b"bar".to_vec(), 0_u32));

    let quotas = calc_cache_quotas(&contracts);
    assert_eq!(quotas, sorted(vec![(b"foo".to_vec(), 0), (b"bar".to_vec(), 0)]));
}

#[test]
fn little_quotas_works() {
    let mut contracts = ContractsKeeper::new();
    contracts.insert(Contract::new(b"foo".to_vec(), 0_u32));
    contracts.insert(Contract::new(b"bar".to_vec(), 1_u32));

    let quotas = calc_cache_quotas(&contracts);
    assert_eq!(
        quotas,
        sorted(vec![(b"foo".to_vec(), 0), (b"bar".to_vec(), TOTAL_MEMORY as usize)])
    );
}

#[test]
fn it_wont_overflow() {
    let mut contracts = ContractsKeeper::new();
    contracts.insert(Contract::new(b"foo".to_vec(), 0_u32));
    contracts.insert(Contract::new(b"bar".to_vec(), u32::MAX));
    contracts.insert(Contract::new(b"baz".to_vec(), u32::MAX));

    let quotas = calc_cache_quotas(&contracts);
    assert_eq!(
        quotas,
        sorted(vec![
            (b"foo".to_vec(), 0),
            (b"bar".to_vec(), TOTAL_MEMORY as usize / 2),
            (b"baz".to_vec(), TOTAL_MEMORY as usize / 2),
        ])
    );
}

#[test]
fn fraction_works() {
    let mut contracts = ContractsKeeper::new();
    contracts.insert(Contract::new(b"foo".to_vec(), 0_u32));
    contracts.insert(Contract::new(b"bar".to_vec(), 1));
    contracts.insert(Contract::new(b"baz".to_vec(), u32::MAX));

    let quotas = calc_cache_quotas(&contracts);
    assert_eq!(
        quotas,
        sorted(vec![
            (b"foo".to_vec(), 0),
            (b"bar".to_vec(), 0),
            (b"baz".to_vec(), TOTAL_MEMORY as usize - 1),
        ])
    );
}

#[test]
fn total_memory_is_twenty_mib() {
    assert_eq!(TOTAL_MEMORY, 20 * 1024 * 1024);
}

#[test]
fn empty_registry_has_no_quotas() {
    let contracts = ContractsKeeper::new();
    assert_eq!(contracts.len(), 0);
    assert!(calc_cache_quotas(&contracts).is_empty());
}

#[test]
fn quotas_come_in_key_order() {
    let contracts = keeper_of(&[(&[0x02], 0), (&[0x01], 0)]);
    assert_eq!(
        calc_cache_quotas(&contracts),
        vec![(vec![0x01], 0), (vec![0x02], 0)]
    );
}

#[test]
fn quotas_never_exceed_budget() {
    let contracts = keeper_of(&[(b"a", 3), (b"b", 7), (b"c", 11), (b"d", 13)]);
    let quotas = calc_cache_quotas(&contracts);
    let sum: usize = quotas.iter().map(|q| q.1).sum();
    assert!(sum as u64 <= TOTAL_MEMORY);
    assert_eq!(quotas[0].1, (TOTAL_MEMORY * 3 / 34) as usize);
    assert_eq!(quotas[3].1, (TOTAL_MEMORY * 13 / 34) as usize);
}

#[test]
fn scaling_weights_keeps_quotas() {
    let base = calc_cache_quotas(&keeper_of(&[(b"a", 0), (b"b", 1), (b"c", 3)]));
    let scaled = calc_cache_quotas(&keeper_of(&[(b"a", 0), (b"b", 1000), (b"c", 3000)]));
    assert_eq!(base, scaled);
    assert_eq!(base[1].1, (TOTAL_MEMORY / 4) as usize);
}

#[test]
fn many_max_weights_do_not_overflow() {
    let mut contracts = ContractsKeeper::new();
    for i in 0..64u8 {
        contracts.insert(Contract::new(vec![i], u32::MAX));
    }
    let quotas = calc_cache_quotas(&contracts);
    assert_eq!(quotas.len(), 64);
    for q in &quotas {
        assert_eq!(q.1, (TOTAL_MEMORY / 64) as usize);
    }
}

#[test]
fn insert_overwrites_same_address() {
    let mut contracts = keeper_of(&[(b"foo", 1)]);
    contracts.insert(Contract::new(b"foo".to_vec(), 9));
    assert_eq!(contracts.len(), 1);
    let c = contracts.get(&b"foo".to_vec()).unwrap();
    assert_eq!(c.to_weight(), 9);
    assert_eq!(c.address(), &b"foo".to_vec());
    assert!(contracts.get(&b"bar".to_vec()).is_none());
}

#[test]
fn set_weight_marks_change() {
    let mut contracts = keeper_of(&[(b"foo", 1)]);
    assert!(!contracts.weight_changed());
    assert!(!contracts.set_weight(&b"bar".to_vec(), 5));
    assert!(!contracts.weight_changed());
    assert!(contracts.set_weight(&b"foo".to_vec(), 5));
    assert!(contracts.weight_changed());
    assert_eq!(contracts.get(&b"foo".to_vec()).unwrap().weight, 5);
    contracts.set_weight_changed(false);
    assert!(!contracts.weight_changed());
}

#[test]
fn keys_iter_and_drain_are_ordered() {
    let mut contracts = keeper_of(&[(b"c", 3), (b"a", 1), (b"b", 2)]);
    assert_eq!(contracts.keys(), vec![b"a".to_vec(), b"b".to_vec(), b"c".to_vec()]);
    let weights: Vec<u32> = contracts.iter().iter().map(|c| c.weight).collect();
    assert_eq!(weights, vec![1, 2, 3]);
    let drained = contracts.drain();
    assert_eq!(drained.len(), 3);
    assert_eq!(drained[0].address, b"a".to_vec());
    assert_eq!(drained[2].weight, 3);
    assert_eq!(contracts.len(), 0);
}

#[test]
fn apply_local_cache_quotas_matches_calc() {
    let contracts = keeper_of(&[(b"x", 1), (b"y", 3)]);
    assert_eq!(contracts.apply_local_cache_quotas(), calc_cache_quotas(&contracts));
    assert_eq!(
        contracts.apply_local_cache_quotas()[1],
        (b"y".to_vec(), (TOTAL_MEMORY * 3 / 4) as usize)
    );
}

#[test]
fn insertion_order_does_not_matter() {
    let a = keeper_of(&[(b"x", 5), (b"y", 7), (b"w", 1)]);
    let b = keeper_of(&[(b"w", 1), (b"y", 7), (b"x", 5)]);
    assert_eq!(calc_cache_quotas(&a), calc_cache_quotas(&b));
}

#[test]
fn all_zero_weights_give_one_zero_quota_each() {
    let quotas = calc_cache_quotas(&keeper_of(&[(b"a", 0), (b"b", 0), (b"c", 0)]));
    assert_eq!(quotas.len(), 3);
    assert!(quotas.iter().all(|q| q.1 == 0));
}
