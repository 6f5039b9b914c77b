use protover::{ProtoSet, UnvalidatedProtoEntry, Version};

#[test]
fn written_sets_read_back_as_themselves() {
    for text in [
        "",
        "3-5,8",
        "0",
        "0-4294967294",
        "1-3,4-5",
        "3,4-5",
        "1,3,5-7,9-10,100,4294967294",
    ] {
        let protoset = ProtoSet::from_str(text).unwrap();
        assert_eq!(protoset.to_string(), text);
        assert_eq!(ProtoSet::from_str(&protoset.to_string()), Ok(protoset));
    }
    let lists: [&[(Version, Version)]; 3] = [&[(3, 5), (8, 8)], &[(9, 9), (1, 2), (9, 9)], &[]];
    for pairs in lists {
        let protoset = ProtoSet::from_slice(pairs).unwrap();
        assert_eq!(ProtoSet::from_str(&protoset.to_string()), Ok(protoset));
    }
}

#[test]
fn contains_agrees_with_expand() {
    for text in ["", "0", "3-5,8", "1-3,4-5", "0-20,22,30-40", "2,4,6,4294967294"] {
        let protoset = ProtoSet::from_str(text).unwrap();
        let expanded = protoset.expand();
        for v in (0..50).chain(4294967290..=4294967295) {
            assert_eq!(protoset.contains(v), expanded.iter().any(|&x| x == v), "{} in {}", v, text);
        }
        assert_eq!(protoset.len(), expanded.len());
        for pair in expanded.windows(2) {
            assert!(pair[0] < pair[1]);
        }
    }
}

#[test]
fn sets_from_versions_have_no_ranges_to_merge() {
    let versions: Vec<Version> = vec![10, 2, 3, 11, 3, 4, 20, 12, 0];
    let protoset = ProtoSet::from(versions.clone());
    let pairs = protoset.iter();

    assert_eq!(pairs, &[(0, 0), (2, 4), (10, 12), (20, 20)]);
    for window in pairs.windows(2) {
        assert!(window[0].1 + 1 < window[1].0);
    }
    for v in 0..30 {
        assert_eq!(protoset.contains(v), versions.contains(&v));
    }
}

#[test]
fn a_passed_over_voter_changes_nothing() {
    let voters = [
        UnvalidatedProtoEntry::from_str("Link=1-4 Cons=1").unwrap(),
        UnvalidatedProtoEntry::from_str("Link=3-9 Doggo=2").unwrap(),
    ];
    let oversized = UnvalidatedProtoEntry::from_str("Link=1-70000 Doggo=2").unwrap();
    let mut with_oversized = voters.to_vec();
    with_oversized.insert(1, oversized);

    for threshold in 0..4 {
        assert_eq!(
            protover::ProtoverVote::compute(&with_oversized, threshold),
            protover::ProtoverVote::compute(&voters, threshold)
        );
    }
}

#[test]
fn a_set_contains_what_its_pairs_contain() {
    let pairs: [(Version, Version); 4] = [(20, 22), (3, 5), (9, 9), (3, 5)];
    let protoset = ProtoSet::from_slice(&pairs).unwrap();

    for v in 0..30 {
        assert_eq!(protoset.contains(v), pairs.iter().any(|&(low, high)| low <= v && v <= high));
    }
    let text = ProtoSet::from_str(" 20-22,3-5 ,9,,3-5").unwrap();
    assert_eq!(text, protoset);
}

#[test]
fn a_higher_threshold_takes_nothing_more() {
    let voters = [
        UnvalidatedProtoEntry::from_str("Link=1-4 Cons=1").unwrap(),
        UnvalidatedProtoEntry::from_str("Link=3-9 Doggo=2").unwrap(),
        UnvalidatedProtoEntry::from_str("Link=4 Cons=1-2").unwrap(),
    ];

    for threshold in 0..4 {
        let lower = protover::ProtoverVote::compute(&voters, threshold);
        let higher = protover::ProtoverVote::compute(&voters, threshold + 1);
        for (name, set) in higher.iter() {
            for v in set.expand() {
                assert!(lower.supports_protocol(name, v));
            }
        }
    }
    assert!(protover::ProtoverVote::compute(&voters, voters.len() + 1).is_empty());
    assert_eq!("Link=4", protover::ProtoverVote::compute(&voters, voters.len()).to_string());
}
