use protover::{find_range, ProtoSet, ProtoverError, Version};

fn contains_each(text: &str, versions: &[Version]) {
    let protoset: Result<ProtoSet, ProtoverError> = ProtoSet::from_str(text);

    assert!(protoset.is_ok());
    let p = protoset.unwrap();
    for &version in versions {
        assert!(p.contains(version));
    }
}

fn from_vec_contains_all(vec: Vec<Version>) {
    let protoset: ProtoSet = vec.clone().into();

    for &x in &vec {
        assert!(protoset.contains(x));
    }
}

#[test]
fn test_find_range() {
    assert_eq!(None, find_range(&vec![]));
    assert_eq!(Some((1, 1)), find_range(&vec![1]));
    assert_eq!(Some((1, 2)), find_range(&vec![1, 2]));
    assert_eq!(Some((1, 3)), find_range(&vec![1, 2, 3]));
    assert_eq!(Some((1, 3)), find_range(&vec![1, 2, 3, 5]));
}

#[test]
fn test_versions_from_str() {
    contains_each("", &[]);
    contains_each("1", &[1]);
    contains_each("1,2", &[1, 2]);
    contains_each("1-3", &[1, 2, 3]);
    contains_each("0-1", &[0, 1]);
    contains_each("1-2,5", &[1, 2, 5]);
    contains_each("1,3-5", &[1, 3, 4, 5]);
    contains_each("42,55-58", &[42, 55, 56, 57, 58]);
    contains_each("0-4294967294", &[0, 4294967294]);
}

#[test]
fn test_versions_from_str_ab() {
    assert_eq!(Err(ProtoverError::Unparseable), ProtoSet::from_str("a,b"));
}

#[test]
fn test_versions_from_str_negative_1() {
    assert_eq!(Err(ProtoverError::Unparseable), ProtoSet::from_str("-1"));
}

#[test]
fn test_versions_from_str_hyphens() {
    assert_eq!(Err(ProtoverError::Unparseable), ProtoSet::from_str("--1"));
    assert_eq!(Err(ProtoverError::Unparseable), ProtoSet::from_str("-1-2"));
    assert_eq!(Err(ProtoverError::Unparseable), ProtoSet::from_str("1--2"));
}

#[test]
fn test_versions_from_str_triple() {
    assert_eq!(Err(ProtoverError::Unparseable), ProtoSet::from_str("1-2-3"));
}

#[test]
fn test_versions_from_str_1exclam() {
    assert_eq!(Err(ProtoverError::Unparseable), ProtoSet::from_str("1,!"));
}

#[test]
fn test_versions_from_str_percent_equal() {
    assert_eq!(Err(ProtoverError::Unparseable), ProtoSet::from_str("%="));
}

#[test]
fn test_versions_from_str_overlap() {
    assert_eq!(Err(ProtoverError::Overlap), ProtoSet::from_str("1-3,2-4"));
}

#[test]
fn test_versions_from_slice_overlap() {
    assert_eq!(
        Err(ProtoverError::Overlap),
        ProtoSet::from_slice(&[(1, 3), (2, 4)])
    );
}

#[test]
fn test_versions_from_str_max() {
    assert_eq!(
        Err(ProtoverError::ExceedsMax),
        ProtoSet::from_str("4294967295")
    );
}

#[test]
fn test_versions_from_slice_max() {
    assert_eq!(
        Err(ProtoverError::ExceedsMax),
        ProtoSet::from_slice(&[(4294967295, 4294967295)])
    );
}

#[test]
fn test_versions_from_str_maxplusone() {
    assert_eq!(
        Err(ProtoverError::Unparseable),
        ProtoSet::from_str("4294967296")
    );
}

#[test]
fn test_protoset_contains() {
    let protoset: ProtoSet = ProtoSet::from_slice(&[(0, 5), (7, 9), (13, 14)]).unwrap();

    for x in 0..6 {
        assert!(protoset.contains(x), "should contain {}", x);
    }
    for x in 7..10 {
        assert!(protoset.contains(x), "should contain {}", x);
    }
    for x in 13..15 {
        assert!(protoset.contains(x), "should contain {}", x);
    }

    for &x in &[6, 10, 11, 12, 15, 42, 43, 44, 45, 1234584] {
        assert!(!protoset.contains(x), "should not contain {}", x);
    }
}

#[test]
fn test_protoset_contains_0_3() {
    let protoset: ProtoSet = ProtoSet::from_slice(&[(0, 3)]).unwrap();

    for x in 0..4 {
        assert!(protoset.contains(x), "should contain {}", x);
    }
}

#[test]
fn test_protoset_from_vec_123() {
    from_vec_contains_all(vec![1, 2, 3]);
}

#[test]
fn test_protoset_from_vec_0_315() {
    from_vec_contains_all(vec![0, 1, 2, 3, 15]);
}

#[test]
fn test_protoset_from_vec_unordered() {
    let v: Vec<Version> = vec![2, 3, 8, 4, 3, 9, 7, 2];
    let ps: ProtoSet = v.into();

    assert_eq!(ps.to_string(), "2-4,7-9");
}

#[test]
fn test_protoset_into_vec() {
    let ps: ProtoSet = "1-13,42,9001,4294967294".parse().unwrap();
    let v: Vec<Version> = ps.expand();

    assert!(v.contains(&7));
    assert!(v.contains(&9001));
    assert!(v.contains(&4294967294));
}

#[test]
fn from_str_reads_ranges_and_single_versions() {
    let protoset = ProtoSet::from_str("3-5,8").unwrap();

    assert!(protoset.contains(4));
    assert!(!protoset.contains(7));
    assert_eq!(protoset.iter(), &[(3, 5), (8, 8)]);
    assert_eq!(protoset.expand(), vec![3, 4, 5, 8]);
    assert_eq!(protoset.clone().to_string(), "3-5,8".to_string());
}

#[test]
fn from_str_sorts_and_drops_duplicates() {
    let protoset = ProtoSet::from_str("8,3-5,8,1").unwrap();

    assert_eq!(protoset.iter(), &[(1, 1), (3, 5), (8, 8)]);
    assert_eq!(protoset.to_string(), "1,3-5,8");
}

#[test]
fn from_str_ignores_whitespace_and_empty_tokens() {
    assert_eq!(ProtoSet::from_str(""), Ok(ProtoSet::default()));
    assert_eq!(ProtoSet::from_str(",,,"), Ok(ProtoSet::default()));
    assert_eq!(ProtoSet::from_str("  "), Ok(ProtoSet::default()));
    assert_eq!(ProtoSet::from_str(" , ,"), Ok(ProtoSet::default()));
    assert!(ProtoSet::from_str("").unwrap().is_empty());

    let protoset = ProtoSet::from_str(" 1 ,\t2-3 ,, 7\n").unwrap();
    assert_eq!(protoset.iter(), &[(1, 1), (2, 3), (7, 7)]);
    let wide = ProtoSet::from_str("\u{3000}4\u{a0},\u{2003}6").unwrap();
    assert_eq!(wide.iter(), &[(4, 4), (6, 6)]);
}

#[test]
fn from_str_reads_numbers_as_unsigned_decimals() {
    assert_eq!(ProtoSet::from_str("+7").unwrap().iter(), &[(7, 7)]);
    assert_eq!(ProtoSet::from_str("007-0010").unwrap().iter(), &[(7, 10)]);
    assert_eq!(ProtoSet::from_str("1-+3").unwrap().iter(), &[(1, 3)]);
    assert_eq!(ProtoSet::from_str("4294967294").unwrap().iter(), &[(4294967294, 4294967294)]);
    assert_eq!(Err(ProtoverError::Unparseable), ProtoSet::from_str("+"));
    assert_eq!(Err(ProtoverError::Unparseable), ProtoSet::from_str("++1"));
    assert_eq!(Err(ProtoverError::Unparseable), ProtoSet::from_str("1 2"));
    assert_eq!(Err(ProtoverError::Unparseable), ProtoSet::from_str("1- 2"));
    assert_eq!(Err(ProtoverError::Unparseable), ProtoSet::from_str("0x10"));
    assert_eq!(Err(ProtoverError::Unparseable), ProtoSet::from_str("99999999999999999999"));
}

#[test]
fn from_str_rejects_malformed_tokens() {
    assert_eq!(Err(ProtoverError::Unparseable), ProtoSet::from_str("="));
    assert_eq!(Err(ProtoverError::Unparseable), ProtoSet::from_str("-"));
    assert_eq!(Err(ProtoverError::Unparseable), ProtoSet::from_str("not_an_int"));
    assert_eq!(Err(ProtoverError::Unparseable), ProtoSet::from_str("3-"));
    assert_eq!(Err(ProtoverError::Unparseable), ProtoSet::from_str("1-,4"));
}

#[test]
fn the_first_failing_token_decides_the_error() {
    assert_eq!(Err(ProtoverError::ExceedsMax), ProtoSet::from_str("4294967295,x"));
    assert_eq!(Err(ProtoverError::Unparseable), ProtoSet::from_str("x,4294967295"));
    assert_eq!(Err(ProtoverError::ExceedsMax), ProtoSet::from_str("1-4294967295"));
    assert_eq!(Err(ProtoverError::ExceedsMax), ProtoSet::from_str("4294967295-1"));
    assert_eq!(Err(ProtoverError::Unparseable), ProtoSet::from_str("4294967295-x"));
}

#[test]
fn validation_reports_the_first_defect() {
    assert_eq!(Err(ProtoverError::LowGreaterThanHigh), ProtoSet::from_str("5-3"));
    assert_eq!(Err(ProtoverError::LowGreaterThanHigh), ProtoSet::from_slice(&[(5, 3)]));
    assert_eq!(Err(ProtoverError::Overlap), ProtoSet::from_slice(&[(4, 9), (5, 3)]));
    assert_eq!(Err(ProtoverError::LowGreaterThanHigh), ProtoSet::from_slice(&[(9, 3), (1, 2)]));
    assert_eq!(Err(ProtoverError::Overlap), ProtoSet::from_slice(&[(2, 4), (1, 3)]));
    assert_eq!(
        Err(ProtoverError::ExceedsMax),
        ProtoSet::from_slice(&[(1, 3), (2, 4294967295)])
    );
    assert_eq!(
        Err(ProtoverError::Overlap),
        ProtoSet::from_slice(&[(1, 3), (2, 4), (7, 4294967295)])
    );
}

#[test]
fn ranges_may_not_touch() {
    assert_eq!(Err(ProtoverError::Overlap), ProtoSet::from_str("3-5,1-3"));
    assert_eq!(Err(ProtoverError::Overlap), ProtoSet::from_str("3,3-5"));
    assert_eq!(Err(ProtoverError::Overlap), ProtoSet::from_slice(&[(1, 3), (3, 5)]));
    assert_eq!(Err(ProtoverError::Overlap), ProtoSet::from_slice(&[(0, 0), (0, 1)]));
    assert_eq!(Err(ProtoverError::Overlap), ProtoSet::from_slice(&[(1, 2), (2, 1)]));
    assert_eq!(Err(ProtoverError::LowGreaterThanHigh), ProtoSet::from_slice(&[(2, 1), (3, 3)]));

    let next_to_each_other = ProtoSet::from_str("4-5,1-3").unwrap();
    assert_eq!(next_to_each_other.iter(), &[(1, 3), (4, 5)]);
    assert_eq!(next_to_each_other.expand(), vec![1, 2, 3, 4, 5]);
    assert_eq!(next_to_each_other.len(), 5);
    assert_eq!(next_to_each_other.to_string(), "1-3,4-5");
    assert_eq!(ProtoSet::from_str("0-1").unwrap().iter(), &[(0, 1)]);
    assert_eq!(ProtoSet::from_str("0,1").unwrap().iter(), &[(0, 0), (1, 1)]);
}

#[test]
fn from_slice_sorts_and_drops_duplicates() {
    let protoset = ProtoSet::from_slice(&[(7, 9), (0, 5), (7, 9), (13, 14)]).unwrap();

    assert_eq!(protoset.iter(), &[(0, 5), (7, 9), (13, 14)]);
    assert_eq!(ProtoSet::from_slice(&[]), Ok(ProtoSet::default()));
}

#[test]
fn len_adds_up_the_ranges() {
    assert_eq!(ProtoSet::from_str("").unwrap().len(), 0);
    assert_eq!(ProtoSet::from_str("9").unwrap().len(), 1);
    assert_eq!(ProtoSet::from_str("1-3,5").unwrap().len(), 4);
    assert_eq!(ProtoSet::from_str("0-4294967294").unwrap().len(), 4294967295);
    assert!(ProtoSet::from_str("1-3,5").unwrap().len_exceeds(3));
    assert!(!ProtoSet::from_str("1-3,5").unwrap().len_exceeds(4));
    assert!(ProtoSet::from_str("0-4294967294").unwrap().len_exceeds(65536));
    assert!(!ProtoSet::from_str("").unwrap().len_exceeds(0));
}

#[test]
fn expand_lists_every_version() {
    assert_eq!(ProtoSet::from_str("3-5,9").unwrap().expand(), vec![3, 4, 5, 9]);
    assert_eq!(ProtoSet::from_str("1,3,5-7").unwrap().expand(), vec![1, 3, 5, 6, 7]);
    assert_eq!(ProtoSet::default().expand(), Vec::<Version>::new());
}

#[test]
fn find_range_follows_the_list_as_it_stands() {
    assert_eq!(Some((1, 2)), find_range(&[1, 3, 2]));
    assert_eq!(Some((5, 5)), find_range(&[5, 4, 3]));
    assert_eq!(Some((2, 4)), find_range(&[2, 3, 3, 4]));
    assert_eq!(Some((4294967295, 4294967295)), find_range(&[4294967295, 0]));
    assert_eq!(Some((4294967294, 4294967295)), find_range(&[4294967294, 4294967295]));
}

#[test]
fn from_versions_coalesces_runs() {
    assert_eq!(ProtoSet::from(vec![2, 3, 4, 7, 8, 9]).iter(), &[(2, 4), (7, 9)]);
    assert_eq!(ProtoSet::from(vec![5]).iter(), &[(5, 5)]);
    assert_eq!(ProtoSet::from(vec![0, 2, 4]).iter(), &[(0, 0), (2, 2), (4, 4)]);
    assert_eq!(ProtoSet::from(Vec::new()), ProtoSet::default());
    assert_eq!(
        ProtoSet::from(vec![4294967294, 4294967293, 1]).iter(),
        &[(1, 1), (4294967293, 4294967294)]
    );
}

#[test]
fn from_versions_with_the_maximum_is_empty() {
    assert_eq!(ProtoSet::from(vec![1, 2, 4294967295]), ProtoSet::default());
    assert_eq!(ProtoSet::from(vec![4294967295]), ProtoSet::default());
}

#[test]
fn retain_keeps_what_the_predicate_takes() {
    let mut protoset = ProtoSet::from_str("1,3-5,9").unwrap();

    protoset.retain(|&x| x <= 8);

    assert_eq!(protoset.expand(), vec![1, 3, 4, 5]);
    assert_eq!(protoset.iter(), &[(1, 1), (3, 5)]);

    protoset.retain(|&x| x % 2 == 1);
    assert_eq!(protoset.to_string(), "1,3,5");

    protoset.retain(|_| false);
    assert!(protoset.is_empty());
}

#[test]
fn and_not_in_takes_versions_away() {
    let ours = ProtoSet::from_str("1-10,20").unwrap();
    let theirs = ProtoSet::from_str("3-4,9-30").unwrap();

    assert_eq!(ours.and_not_in(&theirs).to_string(), "1-2,5-8");
    assert_eq!(theirs.and_not_in(&ours).to_string(), "11-19,21-30");
    assert_eq!(ours.and_not_in(&ProtoSet::default()).to_string(), "1-10,20");
    assert!(ours.and_not_in(&ours).is_empty());
}

#[test]
fn equal_sets_are_equal() {
    assert_eq!(ProtoSet::from_str("1-3,5").unwrap(), ProtoSet::from_str("5,1-3").unwrap());
    assert_ne!(ProtoSet::from_str("1-3,5").unwrap(), ProtoSet::from_str("1-3,6").unwrap());
    assert_ne!(ProtoSet::from_str("1-3").unwrap(), ProtoSet::from_str("1,2,3").unwrap());
    assert_ne!(ProtoSet::from_str("1-3").unwrap(), ProtoSet::from_str("1-3,5").unwrap());
}

#[test]
fn to_string_writes_the_largest_version() {
    let protoset = ProtoSet::from_str("0,10-109,4294967294").unwrap();

    assert_eq!(protoset.to_string(), "0,10-109,4294967294");
    assert_eq!(ProtoSet::default().to_string(), "");
}

#[test]
fn nth_walks_the_expansion() {
    let protoset = ProtoSet::from_str("3-5,9,20-4294967294").unwrap();

    assert_eq!(protoset.nth(0), Some(3));
    assert_eq!(protoset.nth(2), Some(5));
    assert_eq!(protoset.nth(3), Some(9));
    assert_eq!(protoset.nth(4), Some(20));
    assert_eq!(protoset.nth(4294967278), Some(4294967294));
    assert_eq!(protoset.nth(4294967279), None);
    assert_eq!(ProtoSet::default().nth(0), None);
    let several = ProtoSet::from_str("1-3,4-5,9").unwrap();
    let expanded = several.expand();
    for index in 0..8 {
        assert_eq!(several.nth(index), expanded.get(index).copied());
    }
}

#[test]
fn whitespace_is_what_the_standard_library_trims() {
    let seven = ProtoSet::from_slice(&[(7, 7)]);

    for code in 0..=0x10ffff {
        if let Some(c) = char::from_u32(code) {
            if c != ',' {
                let text = format!("{}7{}", c, c);
                assert_eq!(ProtoSet::from_str(&text) == seven, c.is_whitespace(), "{:?}", c);
                assert_eq!(text.trim() == "7", c.is_whitespace());
            }
        }
    }
}
