use setver::{SetOrder, SetVerEncodeError, SetVerOrdering, SetVerParseError, SetVersion};

#[test]
fn parse_correct_setver() {
    // Note that there are other valid forms of these SetVer versions, but we
    // need to use the canonical form where the smallest sets come first so
    // that we can ensure they re-serialize correctly.
    for test_string in
        ["{}", "{{}}", "{{}{{}}}", "{{}{{}}{{}{{}}}}", "{{{{{{{}}}}}}}", "{{}{{}}{{{}}}}", "{{}{{{}}{{}{{}}}}}"]
    {
        assert_eq!(SetVersion::from_str(test_string).unwrap().to_text(), test_string);
    }
}

#[test]
fn parse_incorrect_setver() {
    assert_eq!(SetVersion::from_str("").unwrap_err(), SetVerParseError::Empty);
    assert_eq!(SetVersion::from_str("asd").unwrap_err(), SetVerParseError::IllegalCharacter('a'));
    assert_eq!(SetVersion::from_str("{{b}}").unwrap_err(), SetVerParseError::IllegalCharacter('b'));
    SetVersion::from_str("{{}{}").unwrap_err();
    SetVersion::from_str("}{}").unwrap_err();
    assert_eq!(SetVersion::from_str("{}{}").unwrap_err(), SetVerParseError::TooManySets);
    assert_eq!(SetVersion::from_str("{{}{}}").unwrap_err(), SetVerParseError::NonUniqueElements);
    assert_eq!(SetVersion::from_str("{{{}{}}{}}").unwrap_err(), SetVerParseError::NonUniqueElements);
    assert_eq!(
        SetVersion::from_str("{{}{{}{{}}}{{}{{}}}}").unwrap_err(),
        SetVerParseError::NonUniqueElements
    );
}

#[test]
fn equality() {
    assert_eq!(SetVersion::from_str("{}").unwrap(), SetVersion::from_str("{}").unwrap());
    assert_ne!(SetVersion::from_str("{{{}}}").unwrap(), SetVersion::from_str("{{}}").unwrap());
    assert_eq!(SetVersion::from_str("{{}{{}}}").unwrap(), SetVersion::from_str("{{{}}{}}").unwrap());
    assert_eq!(
        SetVersion::from_str("{{{{}{{}}}{{}}}{}}").unwrap(),
        SetVersion::from_str("{{}{{{}}{{}{{}}}}}").unwrap()
    );
    assert_eq!(
        SetVersion::from_str("{{{{}{{}}}{{}}}{}}").unwrap(),
        SetVersion::from_str("{{}{{{}}{{}{{}}}}}").unwrap()
    );
}

#[test]
fn integralternative() {
    assert_eq!(
        SetVersion::from_str("{{}{{{}}{{}{{}}}}}").unwrap().to_integralternative().unwrap(),
        35999
    );
    assert_eq!(
        SetVersion::from_str("{{}{{{}}{{}{{}}}}}").unwrap().to_integralternative().unwrap(),
        35999
    );
    assert_eq!(SetVersion::string_to_integralternative("{{{{}}{}}{{}}}").unwrap(), 871);
    assert_eq!(SetVersion::string_to_integralternative("{{{}}{{{}}{}}}").unwrap(), 1591);
}

#[test]
fn empty_set_round_trip() {
    let empty = SetVersion::from_str("{}").unwrap();
    assert_eq!(empty.to_text(), "{}");
    assert_eq!(empty, SetVersion::new());
}

#[test]
fn noncanonical_text_canonicalizes() {
    // The same set written with its members in a different order parses to
    // the same value and re-serializes to the one canonical form.
    let canonical = SetVersion::from_str("{{}{{}}}").unwrap();
    let reordered = SetVersion::from_str("{{{}}{}}").unwrap();
    assert_eq!(canonical, reordered);
    assert_eq!(reordered.to_text(), "{{}{{}}}");
}

#[test]
fn von_neumann_three() {
    // 0 = {}, 1 = {0}, 2 = {0,1}, 3 = {0,1,2}.
    let zero = SetVersion::new();
    let mut one = SetVersion::new();
    one.add_child_version(zero.clone());
    let mut two = SetVersion::new();
    two.add_child_version(zero.clone());
    two.add_child_version(one.clone());
    let mut three = SetVersion::new();
    three.add_child_version(zero);
    three.add_child_version(one);
    three.add_child_version(two);
    assert_eq!(three, SetVersion::from_str("{{}{{}}{{}{{}}}}").unwrap());
    assert_eq!(three.to_text(), "{{}{{}}{{}{{}}}}");
}

#[test]
fn add_child_version_deduplicates() {
    let mut version = SetVersion::new();
    version.add_child_version(SetVersion::new());
    version.add_child_version(SetVersion::new());
    assert_eq!(version.to_text(), "{{}}");
}

#[test]
fn subset_relations() {
    let empty = SetVersion::from_str("{}").unwrap();
    let one = SetVersion::from_str("{{}}").unwrap();
    let two = SetVersion::from_str("{{}{{}}}").unwrap();
    let other = SetVersion::from_str("{{{}}}").unwrap();
    assert!(empty.is_subset(&one));
    assert!(empty.is_subset(&empty));
    assert!(one.is_subset(&two));
    assert!(two.is_superset(&one));
    assert!(!two.is_subset(&one));
    // strict subset is derived as "not (the other is a subset of this one)"
    assert!(empty.is_strict_subset(&one));
    assert!(!one.is_strict_subset(&empty));
    assert!(two.is_strict_superset(&one));
    assert!(!one.is_strict_superset(&two));
    // `one` = {0} and `other` = {1} share no member
    assert!(!one.is_subset(&other));
    assert!(!other.is_subset(&one));
}

#[test]
fn setver_compare_outcomes() {
    let one = SetVersion::from_str("{{}}").unwrap();
    let two = SetVersion::from_str("{{}{{}}}").unwrap();
    let other = SetVersion::from_str("{{{}}}").unwrap();
    assert_eq!(one.setver_compare(&two), SetVerOrdering::Subset);
    assert_eq!(two.setver_compare(&one), SetVerOrdering::Superset);
    assert_eq!(one.setver_compare(&other), SetVerOrdering::Incomparable);
    // the subset test comes first and is reflexive, so equal versions
    // report Subset, never Equal
    assert_eq!(one.setver_compare(&one), SetVerOrdering::Subset);
}

#[test]
fn canonical_order() {
    let empty = SetVersion::from_str("{}").unwrap();
    let one = SetVersion::from_str("{{}}").unwrap();
    let two = SetVersion::from_str("{{}{{}}}").unwrap();
    assert_eq!(empty.cmp_canonical(&one), SetOrder::Less);
    assert_eq!(one.cmp_canonical(&two), SetOrder::Less);
    assert_eq!(two.cmp_canonical(&one), SetOrder::Greater);
    assert_eq!(one.cmp_canonical(&one), SetOrder::Equal);
}

#[test]
fn integralternative_bytes() {
    // "{{}{{{}}{{}{{}}}}}" packs to 0b00_10001100_10011111 = 35999,
    // three bytes with the two leftover high bits in the first.
    let version = SetVersion::from_str("{{}{{{}}{{}{{}}}}}").unwrap();
    assert_eq!(version.to_integralternative_bytes(), vec![0x00, 0x8C, 0x9F]);
    assert_eq!(
        SetVersion::string_to_integralternative_bytes("{{}{{{}}{{}{{}}}}}"),
        vec![0x00, 0x8C, 0x9F]
    );
    assert_eq!(SetVersion::string_to_integralternative_bytes(""), Vec::<u8>::new());
    assert_eq!(SetVersion::string_to_integralternative_bytes("{}"), vec![0x01]);
}

#[test]
fn integralternative_overflow() {
    assert_eq!(SetVersion::u128_from_vec(vec![0u8; 17]).unwrap_err(), SetVerEncodeError::Overflow);
    assert_eq!(SetVersion::u128_from_vec(vec![0u8; 16]).unwrap(), 0);
    assert_eq!(SetVersion::u128_from_vec(vec![1u8, 0]).unwrap(), 256);
    // 64 nested levels serialize to exactly 128 braces and still fit;
    // one level more makes 130 braces, too wide for 128 bits, while
    // the byte encoding still succeeds.
    let mut deep = SetVersion::new();
    for _ in 0..63 {
        let mut outer = SetVersion::new();
        outer.add_child_version(deep);
        deep = outer;
    }
    assert_eq!(deep.to_text().len(), 128);
    assert!(deep.to_integralternative().is_ok());
    let mut outer = SetVersion::new();
    outer.add_child_version(deep);
    let deep = outer;
    assert_eq!(deep.to_text().len(), 130);
    assert_eq!(deep.to_integralternative().unwrap_err(), SetVerEncodeError::Overflow);
    assert_eq!(deep.to_integralternative_bytes().len(), 17);
}

#[test]
fn default_is_empty_set() {
    let version: SetVersion = Default::default();
    assert_eq!(version.to_text(), "{}");
}
