use protover::{
    compute_for_old_tor, get_supported_protocols, is_supported_here, old_tor_versions, ProtoEntry,
    ProtoSet, Protocol, ProtoverError, ProtoverVote, UnknownProtocol, UnvalidatedProtoEntry,
    FIRST_TOR_VERSION_TO_ADVERTISE_PROTOCOLS, MAX_PROTOCOLS_TO_EXPAND, MAX_PROTOCOL_NAME_LENGTH,
};

#[test]
fn test_protoentry_from_str_multiple_protocols_multiple_versions() {
    let protoentry: Result<ProtoEntry, ProtoverError> = "Cons=3-4 Link=1,3-5".parse();

    assert!(protoentry.is_ok(), "{:?}", protoentry.err());
}

#[test]
fn test_protoentry_from_str_empty() {
    let protoentry: Result<ProtoEntry, ProtoverError> = "".parse();
    assert!(protoentry.is_err());
    let protoentry: Result<ProtoEntry, ProtoverError> = "=".parse();
    assert!(protoentry.is_err());
    let protoentry: Result<ProtoEntry, ProtoverError> = "=1-2".parse();
    assert!(protoentry.is_err());

    let unvalidated: Result<UnvalidatedProtoEntry, ProtoverError> = "=1-2".parse();
    assert_eq!(unvalidated, Err(ProtoverError::Unparseable));
}

#[test]
fn test_protoentry_from_str_single_protocol_single_version() {
    let protoentry: Result<ProtoEntry, ProtoverError> = "HSDir=1".parse();

    assert!(protoentry.is_ok(), "{:?}", protoentry.err());
}

#[test]
fn test_protoentry_from_str_unknown_protocol() {
    let protoentry: Result<ProtoEntry, ProtoverError> = "Ducks=5-7,8".parse();

    assert!(protoentry.is_err());
}

#[test]
fn test_protoentry_from_str_allowed_number_of_versions() {
    // a set of known protocols takes up to MAX_PROTOCOLS_TO_EXPAND versions
    let protoentry: Result<ProtoEntry, ProtoverError> = ProtoEntry::from_str("Desc=1-65536");
    assert!(protoentry.is_ok(), "{:?}", protoentry.err());

    // names that are not checked come with sets of any size
    let unvalidated = UnvalidatedProtoEntry::from_str("Desc=1-4294967294");
    assert!(unvalidated.is_ok(), "{:?}", unvalidated.err());

    assert_eq!(ProtoEntry::from_str("Desc=1-4294967294"), Err(ProtoverError::ExceedsMax));
}

#[test]
fn test_protoentry_from_str_too_many_versions() {
    let protoentry: Result<ProtoEntry, ProtoverError> = "Desc=1-4294967295".parse();

    assert!(protoentry.is_err());
}

#[test]
fn test_protoentry_all_supported_single_protocol_single_version() {
    let protocol: UnvalidatedProtoEntry = "Cons=1".parse().unwrap();
    let unsupported: UnvalidatedProtoEntry = protocol.get_unsupported();
    assert_eq!(true, unsupported.is_empty());
}

#[test]
fn test_protoentry_all_supported_multiple_protocol_multiple_versions() {
    let protocols: UnvalidatedProtoEntry = "Link=3-4 Desc=2".parse().unwrap();
    let unsupported: UnvalidatedProtoEntry = protocols.get_unsupported();
    assert_eq!(true, unsupported.is_empty());
}

#[test]
fn test_protoentry_all_supported_three_values() {
    let protocols: UnvalidatedProtoEntry = "LinkAuth=1 Microdesc=1-2 Relay=2".parse().unwrap();
    let unsupported: UnvalidatedProtoEntry = protocols.get_unsupported();
    assert_eq!(true, unsupported.is_empty());
}

#[test]
fn test_protoentry_all_supported_unknown_protocol() {
    let protocols: UnvalidatedProtoEntry = "Wombat=9".parse().unwrap();
    let unsupported: UnvalidatedProtoEntry = protocols.get_unsupported();
    assert_eq!(false, unsupported.is_empty());
    assert_eq!("Wombat=9", &unsupported.to_string());
}

#[test]
fn test_protoentry_all_supported_unsupported_high_version() {
    let protocols: UnvalidatedProtoEntry = "HSDir=12-100".parse().unwrap();
    let unsupported: UnvalidatedProtoEntry = protocols.get_unsupported();
    assert_eq!(false, unsupported.is_empty());
    assert_eq!("HSDir=12-100", &unsupported.to_string());
}

#[test]
fn test_protoentry_all_supported_unsupported_low_version() {
    let protocols: UnvalidatedProtoEntry = "Cons=0-1".parse().unwrap();
    let unsupported: UnvalidatedProtoEntry = protocols.get_unsupported();
    assert_eq!(false, unsupported.is_empty());
    assert_eq!("Cons=0", &unsupported.to_string());
}

#[test]
fn test_contract_protocol_list() {
    let mut versions = "";
    assert_eq!(
        String::from(versions),
        ProtoSet::from_str(&versions).unwrap().to_string()
    );

    versions = "1";
    assert_eq!(
        String::from(versions),
        ProtoSet::from_str(&versions).unwrap().to_string()
    );

    versions = "1-2";
    assert_eq!(
        String::from(versions),
        ProtoSet::from_str(&versions).unwrap().to_string()
    );

    versions = "1,3";
    assert_eq!(
        String::from(versions),
        ProtoSet::from_str(&versions).unwrap().to_string()
    );

    versions = "1-4";
    assert_eq!(
        String::from(versions),
        ProtoSet::from_str(&versions).unwrap().to_string()
    );

    versions = "1,3,5-7";
    assert_eq!(
        String::from(versions),
        ProtoSet::from_str(&versions).unwrap().to_string()
    );

    versions = "1-3,500";
    assert_eq!(
        String::from(versions),
        ProtoSet::from_str(&versions).unwrap().to_string()
    );
}

fn set(text: &str) -> ProtoSet {
    ProtoSet::from_str(text).unwrap()
}

fn name(text: &str) -> UnknownProtocol {
    UnknownProtocol::from_str(text).unwrap()
}

fn entry(text: &str) -> UnvalidatedProtoEntry {
    UnvalidatedProtoEntry::from_str(text).unwrap()
}

#[test]
fn protocols_are_found_by_their_names() {
    let all = [
        (Protocol::Cons, "Cons"),
        (Protocol::Desc, "Desc"),
        (Protocol::DirCache, "DirCache"),
        (Protocol::HSDir, "HSDir"),
        (Protocol::HSIntro, "HSIntro"),
        (Protocol::HSRend, "HSRend"),
        (Protocol::Link, "Link"),
        (Protocol::LinkAuth, "LinkAuth"),
        (Protocol::Microdesc, "Microdesc"),
        (Protocol::Relay, "Relay"),
    ];
    for (protocol, text) in all {
        assert_eq!(Protocol::from_str(text), Ok(protocol));
        assert_eq!(protocol.name(), text);
        assert_eq!(protocol.to_string(), text);
        assert_eq!(UnknownProtocol::from(protocol).to_string(), text);
    }
    assert_eq!(Protocol::from_str("link"), Err(ProtoverError::UnknownProtocol));
    assert_eq!(Protocol::from_str("Link "), Err(ProtoverError::UnknownProtocol));
    assert_eq!(Protocol::from_str(""), Err(ProtoverError::UnknownProtocol));
    assert_eq!(Protocol::from_str("Wombat"), Err(ProtoverError::UnknownProtocol));
}

#[test]
fn unknown_protocol_names_are_bounded() {
    let longest = "x".repeat(MAX_PROTOCOL_NAME_LENGTH);
    let too_long = "x".repeat(MAX_PROTOCOL_NAME_LENGTH + 1);

    assert_eq!(MAX_PROTOCOL_NAME_LENGTH, 100);
    assert_eq!(UnknownProtocol::from_str("Doggo").unwrap().as_str(), "Doggo");
    assert_eq!(UnknownProtocol::from_str(&longest).unwrap().to_string(), longest);
    assert_eq!(UnknownProtocol::from_str(&too_long), Err(ProtoverError::ExceedsNameLimit));
    assert_eq!(UnknownProtocol::from_str(""), Err(ProtoverError::Unparseable));
    assert_eq!(UnknownProtocol::from_str_any_len(&too_long).unwrap().to_string(), too_long);
    assert_eq!(UnknownProtocol::from_str_any_len(""), Err(ProtoverError::Unparseable));
    let accented = "\u{e9}".repeat(MAX_PROTOCOL_NAME_LENGTH);
    assert_eq!(UnknownProtocol::from_str(&accented).unwrap().to_string(), accented);
    assert_eq!(
        UnknownProtocol::from_str(&format!("{}e", accented)),
        Err(ProtoverError::ExceedsNameLimit)
    );
    assert_eq!(name("Doggo"), name("Doggo").clone());
    assert_ne!(name("Doggo"), name("Doggos"));
}

#[test]
fn unvalidated_entries_take_any_name() {
    let parsed = entry("Link=3-4 Cons=1 Doggo=3-5");

    assert_eq!(parsed.get(&name("Link")), Some(&set("3-4")));
    assert_eq!(parsed.get(&Protocol::Cons.into()), Some(&set("1")));
    assert_eq!(parsed.get(&name("Doggo")), Some(&set("3-5")));
    assert_eq!(parsed.get(&name("Desc")), None);
    assert_eq!(parsed.iter().len(), 3);
    assert_eq!(parsed.len(), 6);
    assert!(!parsed.is_empty());
    assert!(parsed.len_exceeds(5));
    assert!(!parsed.len_exceeds(6));
}

#[test]
fn unvalidated_entries_limit_the_length_of_names() {
    let longest = format!("{}=1", "x".repeat(100));
    let too_long = format!("{}=1", "x".repeat(101));

    assert!(UnvalidatedProtoEntry::from_str(&longest).is_ok());
    assert_eq!(
        UnvalidatedProtoEntry::from_str(&too_long),
        Err(ProtoverError::ExceedsNameLimit)
    );
    let any = UnvalidatedProtoEntry::from_str_any_len(&too_long).unwrap();
    assert_eq!(any.to_string(), too_long);
    assert_eq!(
        UnvalidatedProtoEntry::from_str_any_len("=1"),
        Err(ProtoverError::Unparseable)
    );
}

#[test]
fn clauses_are_separated_by_single_spaces() {
    assert_eq!(UnvalidatedProtoEntry::from_str(""), Err(ProtoverError::Unparseable));
    assert_eq!(UnvalidatedProtoEntry::from_str("Cons=1,3 Desc"), Err(ProtoverError::Unparseable));
    assert_eq!(UnvalidatedProtoEntry::from_str(" Cons=1,3 Link=3"), Err(ProtoverError::Unparseable));
    assert_eq!(UnvalidatedProtoEntry::from_str("Cons=1,3 Link=3 "), Err(ProtoverError::Unparseable));
    assert_eq!(UnvalidatedProtoEntry::from_str("Cons=1,3  Link=3"), Err(ProtoverError::Unparseable));
    assert_eq!(UnvalidatedProtoEntry::from_str("Cons=1=3"), Err(ProtoverError::Unparseable));
    assert_eq!(ProtoEntry::from_str("Cons=1,3  Link=3"), Err(ProtoverError::Unparseable));
    assert_eq!(ProtoEntry::from_str("Cons=1,3 Link"), Err(ProtoverError::Unparseable));
    assert_eq!(UnvalidatedProtoEntry::from_str("Cons= 1 , 3"), Err(ProtoverError::Unparseable));
    assert_eq!(entry("Cons=1,\t3").get(&name("Cons")), Some(&set("1,3")));
    assert_eq!(entry("Cons=").get(&name("Cons")), Some(&ProtoSet::default()));
}

#[test]
fn the_first_failing_clause_decides_the_error() {
    assert_eq!(ProtoEntry::from_str("Ducks=1 Link"), Err(ProtoverError::UnknownProtocol));
    assert_eq!(ProtoEntry::from_str("Link Ducks=1"), Err(ProtoverError::Unparseable));
    assert_eq!(ProtoEntry::from_str("Ducks=4294967295"), Err(ProtoverError::ExceedsMax));
    assert_eq!(ProtoEntry::from_str("Ducks=3-1"), Err(ProtoverError::LowGreaterThanHigh));
    assert_eq!(ProtoEntry::from_str("Ducks=1-70000"), Err(ProtoverError::UnknownProtocol));
    assert_eq!(ProtoEntry::from_str("Link=1-3,2-4"), Err(ProtoverError::Overlap));
    assert_eq!(
        UnvalidatedProtoEntry::from_str("=4294967295"),
        Err(ProtoverError::ExceedsMax)
    );
}

#[test]
fn validated_entries_limit_the_size_of_sets() {
    let limit = MAX_PROTOCOLS_TO_EXPAND;

    assert_eq!(limit, 65536);
    assert!(ProtoEntry::from_str("Link=1-65536").is_ok());
    assert!(ProtoEntry::from_str("Link=0-65535 Cons=0-65535").is_ok());
    assert_eq!(ProtoEntry::from_str("Link=1-65537"), Err(ProtoverError::ExceedsMax));
    assert_eq!(ProtoEntry::from_str("Link=0-65536"), Err(ProtoverError::ExceedsMax));
    assert_eq!(ProtoEntry::from_str("Link=1-999999999"), Err(ProtoverError::ExceedsMax));
    assert_eq!(ProtoEntry::from_str("Cons=1 Link=1-65536,70000"), Err(ProtoverError::ExceedsMax));
}

#[test]
fn of_two_clauses_of_one_name_the_later_counts() {
    let parsed = ProtoEntry::from_str("Link=1 Cons=2 Link=3-4").unwrap();

    assert_eq!(parsed.len(), 2);
    assert_eq!(parsed.get(&Protocol::Link), Some(&set("3-4")));
    assert_eq!(parsed.to_string(), "Cons=2 Link=3-4");
    assert_eq!(entry("A=1 A=2").to_string(), "A=2");
}

#[test]
fn validated_entries_are_maps() {
    let mut parsed = ProtoEntry::default();

    assert!(parsed.is_empty());
    assert_eq!(parsed.len(), 0);
    parsed.insert(Protocol::Link, set("1-5"));
    parsed.insert(Protocol::Cons, set("1"));
    parsed.insert(Protocol::Link, set("2"));
    assert_eq!(parsed.len(), 2);
    assert!(!parsed.is_empty());
    assert_eq!(parsed.get(&Protocol::Link), Some(&set("2")));
    assert_eq!(parsed.get(&Protocol::Desc), None);
    assert_eq!(parsed.iter().len(), 2);
    assert_eq!(parsed, ProtoEntry::from_str("Cons=1 Link=2").unwrap());
    assert_eq!(parsed.clone(), parsed);
    assert_eq!(parsed.remove(&Protocol::Link), Some(set("2")));
    assert_eq!(parsed.remove(&Protocol::Link), None);
    assert_eq!(parsed.len(), 1);
    assert_ne!(parsed, ProtoEntry::from_str("Cons=1 Link=2").unwrap());
    assert_ne!(parsed, ProtoEntry::from_str("Cons=2").unwrap());
    assert_ne!(parsed, ProtoEntry::from_str("Desc=1").unwrap());
}

#[test]
fn unvalidated_entries_are_maps() {
    let mut parsed = UnvalidatedProtoEntry::default();

    assert!(parsed.is_empty());
    parsed.insert(name("Doggo"), set("1-5"));
    parsed.insert(name("Wombat"), set("9"));
    parsed.insert(name("Doggo"), set("2"));
    assert!(!parsed.is_empty());
    assert_eq!(parsed.len(), 2);
    assert_eq!(parsed.get(&name("Doggo")), Some(&set("2")));
    assert_eq!(parsed, entry("Wombat=9 Doggo=2"));
    assert_eq!(parsed.clone(), parsed);
    assert_eq!(parsed.remove(&name("Doggo")), Some(set("2")));
    assert_eq!(parsed.remove(&name("Doggo")), None);
    assert_eq!(parsed, entry("Wombat=9"));
    assert_ne!(parsed, entry("Wombat=8"));
    assert_ne!(parsed, entry("Womba=9"));
}

#[test]
fn entries_are_written_in_the_order_of_their_names() {
    assert_eq!(entry("Link=1 Cons=2").to_string(), "Cons=2 Link=1");
    assert_eq!(entry("b=1 a=2 B=3 ab=4 aa=5").to_string(), "B=3 a=2 aa=5 ab=4 b=1");
    assert_eq!(entry("Link2=1 Link=1 Link-=7").to_string(), "Link=1 Link-=7 Link2=1");
    assert_eq!(entry("Zebra=1-3,5 \u{e9}t\u{e9}=5").to_string(), "Zebra=1-3,5 \u{e9}t\u{e9}=5");
    assert_eq!(UnvalidatedProtoEntry::default().to_string(), "");
    assert_eq!(
        ProtoEntry::from_str("Relay=1-2 LinkAuth=1,3 Link=1-5 HSRend=1-2 HSIntro=3-4 HSDir=1-2")
            .unwrap()
            .to_string(),
        "HSDir=1-2 HSIntro=3-4 HSRend=1-2 Link=1-5 LinkAuth=1,3 Relay=1-2"
    );
}

#[test]
fn validated_entries_become_unvalidated_ones() {
    let parsed = ProtoEntry::from_str("Link=1-5 Cons=1").unwrap();
    let unvalidated = UnvalidatedProtoEntry::from(parsed);

    assert_eq!(unvalidated, entry("Cons=1 Link=1-5"));
    assert_eq!(unvalidated.get(&name("Link")), Some(&set("1-5")));
}

#[test]
fn supports_protocol_looks_for_the_version() {
    let proto = entry("Link=3-4 Cons=1 Doggo=3-5");

    assert_eq!(true, proto.supports_protocol(&Protocol::Cons.into(), 1));
    assert_eq!(false, proto.supports_protocol(&Protocol::Cons.into(), 5));
    assert_eq!(true, proto.supports_protocol(&name("Doggo"), 4));
    assert_eq!(false, proto.supports_protocol(&name("Wombat"), 4));
}

#[test]
fn supports_protocol_or_later_looks_at_the_ends_of_ranges() {
    let proto = entry("Link=3-4 Cons=5 Doggo=1-2,9");

    assert_eq!(true, proto.supports_protocol_or_later(&Protocol::Cons.into(), 5));
    assert_eq!(true, proto.supports_protocol_or_later(&Protocol::Cons.into(), 4));
    assert_eq!(false, proto.supports_protocol_or_later(&Protocol::Cons.into(), 6));
    assert_eq!(true, proto.supports_protocol_or_later(&name("Doggo"), 5));
    assert_eq!(false, proto.supports_protocol(&name("Doggo"), 5));
    assert_eq!(false, proto.supports_protocol_or_later(&name("Doggo"), 10));
    assert_eq!(false, proto.supports_protocol_or_later(&name("Wombat"), 0));
}

#[test]
fn the_supported_protocols_parse() {
    let text = "Cons=1-2 Desc=1-2 DirCache=1-2 HSDir=1-2 HSIntro=3-4 HSRend=1-2 Link=1-5 \
                LinkAuth=1,3 Microdesc=1-2 Relay=1-2";
    let supported = ProtoEntry::supported().unwrap();

    assert_eq!(get_supported_protocols(), text);
    assert_eq!(supported.len(), 10);
    assert_eq!(supported.to_string(), text);
    assert_eq!(supported.get(&Protocol::LinkAuth), Some(&set("1,3")));
    assert_eq!(supported.get(&Protocol::HSIntro), Some(&set("3-4")));
}

#[test]
fn is_supported_here_goes_by_the_supported_protocols() {
    assert_eq!(false, is_supported_here(&Protocol::Link, 10));
    assert_eq!(true, is_supported_here(&Protocol::Link, 1));
    assert_eq!(true, is_supported_here(&Protocol::Link, 5));
    assert_eq!(false, is_supported_here(&Protocol::Link, 0));
    assert_eq!(false, is_supported_here(&Protocol::LinkAuth, 2));
    assert_eq!(true, is_supported_here(&Protocol::LinkAuth, 3));
    assert_eq!(false, is_supported_here(&Protocol::HSIntro, 2));
}

#[test]
fn get_unsupported_keeps_what_is_beyond_the_supported() {
    let protocols = entry("LinkAuth=1 Microdesc=1-2 Relay=2");
    assert_eq!(true, protocols.get_unsupported().is_empty());

    let protocols = entry("Link=1-2 Wombat=9");
    let unsupported = protocols.get_unsupported();
    assert_eq!(false, unsupported.is_empty());
    assert_eq!("Wombat=9", &unsupported.to_string());

    let protocols = entry("Link=1-9 LinkAuth=1-4 Wombat=9 link=1");
    assert_eq!(
        "Link=6-9 LinkAuth=2,4 Wombat=9 link=1",
        &protocols.get_unsupported().to_string()
    );
}

#[test]
fn unsupported_by_compares_with_the_entry_given() {
    let supported = ProtoEntry::from_str("Link=1-2").unwrap();

    assert_eq!("Wombat=9", &entry("Link=1-2 Wombat=9").unsupported_by(&supported).to_string());
    assert_eq!(
        "Cons=1 Link=3-4",
        &entry("Link=1-4 Cons=1").unsupported_by(&supported).to_string()
    );
    assert!(entry("Link=2").unsupported_by(&supported).is_empty());
    assert!(entry("Link=").unsupported_by(&supported).is_empty());
    assert_eq!(
        "Link=1-2",
        &entry("Link=1-2").unsupported_by(&ProtoEntry::default()).to_string()
    );
}

#[test]
fn the_vote_takes_what_enough_voters_list() {
    let protos: &[UnvalidatedProtoEntry] = &[entry("Link=3-4"), entry("Link=3")];

    assert_eq!("Link=3", ProtoverVote::compute(protos, 2).to_string());
    assert_eq!("Link=3-4", ProtoverVote::compute(protos, 1).to_string());
    assert_eq!("Link=3-4", ProtoverVote::compute(protos, 0).to_string());
    assert_eq!("", ProtoverVote::compute(protos, 3).to_string());
    assert!(ProtoverVote::compute(&[], 0).is_empty());
    assert!(ProtoverVote::compute(&[], 1).is_empty());
}

#[test]
fn the_vote_counts_each_protocol_by_itself() {
    let protos = [
        entry("Link=1-4 Cons=1-2 Wombat=7"),
        entry("Cons=2-3 Link=2,4-5"),
        entry("Wombat=7-8 Link=4,1 Empty="),
    ];

    assert_eq!(
        "Cons=1-3 Link=1-5 Wombat=7-8",
        ProtoverVote::compute(&protos, 1).to_string()
    );
    assert_eq!("Cons=2 Link=1-2,4 Wombat=7", ProtoverVote::compute(&protos, 2).to_string());
    assert_eq!("Link=4", ProtoverVote::compute(&protos, 3).to_string());
    assert!(ProtoverVote::compute(&protos, 4).is_empty());
}

#[test]
fn the_vote_does_not_depend_on_the_order_of_the_voters() {
    let forward = [entry("Link=1-4 Cons=1"), entry("Link=3-9"), entry("Cons=1 A=1")];
    let backward = [entry("A=1 Cons=1"), entry("Link=3-9"), entry("Cons=1 Link=1-4")];

    for threshold in 0..4 {
        assert_eq!(
            ProtoverVote::compute(&forward, threshold),
            ProtoverVote::compute(&backward, threshold)
        );
    }
    assert_eq!("Cons=1 Link=3-4", ProtoverVote::compute(&forward, 2).to_string());
}

#[test]
fn a_voter_with_too_many_versions_is_passed_over() {
    let small = entry("Link=1-3");
    let at_limit = entry("Link=1-65536");
    let too_large = entry("Link=1-65537");
    let too_large_in_all = entry("Link=1-40000 Cons=1-40000");

    assert_eq!(
        "Link=1-3",
        ProtoverVote::compute(&[small.clone(), too_large.clone()], 1).to_string()
    );
    assert!(ProtoverVote::compute(&[small.clone(), too_large.clone()], 2).is_empty());
    assert!(ProtoverVote::compute(&[too_large], 1).is_empty());
    assert_eq!(
        "Link=1-3",
        ProtoverVote::compute(&[too_large_in_all, small.clone(), small.clone()], 2).to_string()
    );
    assert_eq!(
        "Link=1-65536",
        ProtoverVote::compute(&[small.clone(), at_limit.clone()], 1).to_string()
    );
    assert_eq!("Link=1-3", ProtoverVote::compute(&[small, at_limit], 2).to_string());
}

#[test]
fn a_voter_has_one_vote_for_a_version() {
    assert_eq!(
        UnvalidatedProtoEntry::from_str("Link=1-3,3-5"),
        Err(ProtoverError::Overlap)
    );
    let voter = entry("Link=1-3,4-5");

    assert!(ProtoverVote::compute(&[voter.clone()], 2).is_empty());
    assert_eq!("Link=1-5", ProtoverVote::compute(&[voter.clone()], 1).to_string());
    assert_eq!(
        "Link=1-5",
        ProtoverVote::compute(&[voter.clone(), voter.clone()], 2).to_string()
    );
    assert!(ProtoverVote::compute(&[voter.clone(), voter], 3).is_empty());
}

#[test]
fn votes_are_counted_one_voter_at_a_time() {
    let mut votes = ProtoverVote::default();

    assert!(votes.into_entry(0).is_empty());
    votes.entry(name("Link"));
    assert!(votes.into_entry(0).is_empty());
    votes.add_vote(&entry("Link=3-4"));
    votes.add_vote(&entry("Link=3 Cons=1"));
    votes.add_vote(&entry("Link=1-65537"));
    votes.add_versions(name("Cons"), &set("1-2"));
    assert_eq!("Cons=1-2 Link=3-4", votes.into_entry(1).to_string());
    assert_eq!("Cons=1 Link=3", votes.into_entry(2).to_string());
    assert!(votes.into_entry(3).is_empty());
}

#[test]
fn old_relays_get_the_list_of_their_version() {
    let newest = "Cons=1-2 Desc=1-2 DirCache=1 HSDir=1 HSIntro=3 HSRend=1-2 Link=1-4 LinkAuth=1 \
                  Microdesc=1-2 Relay=1-2";
    let middle = "Cons=1-2 Desc=1-2 DirCache=1 HSDir=1 HSIntro=3 HSRend=1 Link=1-4 LinkAuth=1 \
                  Microdesc=1-2 Relay=1-2";
    let oldest = "Cons=1 Desc=1 DirCache=1 HSDir=1 HSIntro=3 HSRend=1 Link=1-4 LinkAuth=1 \
                  Microdesc=1 Relay=1-2";

    assert_eq!(FIRST_TOR_VERSION_TO_ADVERTISE_PROTOCOLS, "0.2.9.3-alpha");
    assert_eq!(old_tor_versions(), ["0.2.9.3-alpha", "0.2.9.1-alpha", "0.2.7.5", "0.2.4.19"]);
    assert_eq!(compute_for_old_tor(true, true, true, true), "");
    assert_eq!(compute_for_old_tor(true, false, false, false), "");
    assert_eq!(compute_for_old_tor(false, true, true, true), newest);
    assert_eq!(compute_for_old_tor(false, true, false, false), newest);
    assert_eq!(compute_for_old_tor(false, false, true, true), middle);
    assert_eq!(compute_for_old_tor(false, false, false, true), oldest);
    assert_eq!(compute_for_old_tor(false, false, false, false), "");
    for list in [newest, middle, oldest] {
        assert_eq!(ProtoEntry::from_str(list).unwrap().to_string(), list);
    }
}
