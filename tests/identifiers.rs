use palapelify::feature_id::{identifier_source, known, unknown, IdSource};
use palapelify::{feature_id, is_geoid_like, FeatureProperties, GeoId, GeoIdInterner, InternedGeoId, Property, Raw};

fn properties_with_values(pairs: &[(&str, &str)]) -> FeatureProperties {
    FeatureProperties {
        entries: pairs
            .iter()
            .map(|(key, value)| Property {
                key: key.to_string(),
                value: Some(value.to_string()),
            })
            .collect(),
    }
}

const REAL_GEOID: &str = "I am definitely a real GEOID";

fn properties(keys: &[&str]) -> FeatureProperties {
    let pairs: Vec<(&str, &str)> = keys.iter().map(|k| (*k, REAL_GEOID)).collect();
    properties_with_values(&pairs)
}

#[test]
fn geoid_string() {
    let string: String = String::from("hello, world!");
    let result: GeoId = GeoId::from(string);
    assert!(result.is_raw());
}

#[test]
fn is_interned() {
    let geoid = GeoId::Interned(0_u32);
    assert!(geoid.is_interned());
    let geoid = GeoId::Raw("".into());
    assert!(!geoid.is_interned());
}

#[test]
fn is_raw() {
    let geoid = GeoId::Interned(0_u32);
    assert!(!geoid.is_raw());
    let geoid = GeoId::Raw("".into());
    assert!(geoid.is_raw());
}

#[test]
fn raw_string() {
    let string: String = String::from("hello, world!");
    let result: Raw = Raw::from(string.clone());
    assert_eq!(result.0, string);
}

#[test]
fn feature_id_geoid10() {
    assert!(is_geoid_like("GEOID10"));
}

#[test]
fn feature_id_geoid20() {
    assert!(is_geoid_like("GEOID20"));
}

#[test]
fn special() {
    assert!(is_geoid_like("GEOID98"));
}

#[test]
fn empty() {
    assert!(!is_geoid_like(""));
}

#[test]
fn short_key_is_not_geoid_like() {
    assert!(!is_geoid_like("GEOI"));
    assert!(!is_geoid_like("geoid10"));
}

const VALID_GEOID: &str = "A valid geoid!";

#[test]
fn known_finds_geoid10() {
    let props = properties_with_values(&[("GEOID10", VALID_GEOID)]);
    assert_eq!(known(&props).as_deref(), Some(VALID_GEOID));
}

#[test]
fn known_finds_geoid20() {
    let props = properties_with_values(&[("GEOID20", VALID_GEOID)]);
    assert_eq!(known(&props).as_deref(), Some(VALID_GEOID));
}

#[test]
fn unknown_finds_geoid10() {
    let props = properties_with_values(&[("GEOID10", VALID_GEOID)]);
    assert_eq!(unknown(&props).as_deref(), Some(VALID_GEOID));
}

#[test]
fn unknown_finds_geoid20() {
    let props = properties_with_values(&[("GEOID20", VALID_GEOID)]);
    assert_eq!(unknown(&props).as_deref(), Some(VALID_GEOID));
}

#[test]
fn known_geoid10() {
    let props = properties(&["GEOID10"]);
    assert_eq!(feature_id(&props).as_deref(), Some(REAL_GEOID));
}

#[test]
fn known_geoid20() {
    let props = properties(&["GEOID20"]);
    assert_eq!(feature_id(&props).as_deref(), Some(REAL_GEOID));
}

#[test]
fn known_geoid10_and_geoid20() {
    let props = properties_with_values(&[
        ("GEOID10", "value for GEOID10"),
        ("GEOID20", "value for GEOID20"),
    ]);
    assert_eq!(feature_id(&props).as_deref(), Some("value for GEOID10"));
}

#[test]
fn unordered_or_repeated_names_are_not_well_formed() {
    let unordered = properties_with_values(&[
        ("GEOID20", "value for GEOID20"),
        ("GEOID10", "value for GEOID10"),
    ]);
    assert!(!unordered.is_well_formed());
    let repeated = properties_with_values(&[("GEOID10", "a"), ("GEOID10", "b")]);
    assert!(!repeated.is_well_formed());
    let ordered = properties_with_values(&[("GEOID10", "a"), ("GEOID20", "b"), ("NAME", "c")]);
    assert!(ordered.is_well_formed());
    assert!(FeatureProperties { entries: Vec::new() }.is_well_formed());
}

#[test]
fn identifier_source_reports_the_path() {
    assert_eq!(identifier_source(&properties(&["GEOID10"])), Some(IdSource::Known));
    assert_eq!(identifier_source(&properties(&["GEOID30"])), Some(IdSource::Fallback));
    assert_eq!(identifier_source(&properties(&["NAME"])), None);
}

#[test]
fn fallback_takes_the_least_geoid_like_name() {
    let props = properties_with_values(&[("GEOIDA", "first"), ("GEOIDB", "second")]);
    assert!(props.is_well_formed());
    assert_eq!(feature_id(&props).as_deref(), Some("first"));
}

#[test]
fn mixed_known_geoid20_and_unknown_geoid30() {
    let props = properties_with_values(&[
        ("GEOID20", "value for GEOID20"),
        ("GEOID30", "value for GEOID30"),
    ]);
    assert_eq!(feature_id(&props).as_deref(), Some("value for GEOID20"));
}

#[test]
fn unknown_geoid30() {
    let props = properties(&["GEOID30"]);
    assert_eq!(feature_id(&props).as_deref(), Some(REAL_GEOID));
}

#[test]
fn empty_feature() {
    let props = FeatureProperties { entries: Vec::new() };
    assert_eq!(feature_id(&props), None);
}

#[test]
fn non_string_known_value_falls_through() {
    let props = FeatureProperties {
        entries: vec![
            Property { key: "GEOID10".to_string(), value: None },
            Property { key: "GEOID20".to_string(), value: Some("b".to_string()) },
        ],
    };
    assert_eq!(feature_id(&props).as_deref(), Some("b"));
}

#[test]
fn works() {
    let _ = GeoIdInterner::new();
}

#[test]
fn default_zero() {
    let interner = GeoIdInterner::new();
    assert_eq!(interner.len(), 0_usize);
}

#[test]
fn intern_once() {
    let mut interner = GeoIdInterner::new();
    let id: InternedGeoId = interner.intern("181570111003007");
    assert_eq!(id, InternedGeoId(0));
}

#[test]
fn intern_twice_same_geoid() {
    let mut interner = GeoIdInterner::new();
    let id_first: InternedGeoId = interner.intern("181570111003007");
    let id_second: InternedGeoId = interner.intern("181570111003007");
    assert_eq!(id_first, InternedGeoId(0));
    assert_eq!(id_second, InternedGeoId(0));
    assert_eq!(id_first, id_second);
    assert_eq!(std::mem::size_of::<InternedGeoId>(), std::mem::size_of::<u32>());
}

#[test]
fn intern_twice_same_geoid_and_once_more() {
    let mut interner = GeoIdInterner::new();
    let id_first: InternedGeoId = interner.intern("181570111003007");
    let id_second: InternedGeoId = interner.intern("181570111003007");
    let id_third: InternedGeoId = interner.intern("181570111003006");
    assert_eq!(id_first, InternedGeoId(0));
    assert_eq!(id_second, InternedGeoId(0));
    assert_eq!(id_third, InternedGeoId(1));
    assert_eq!(id_first, id_second);
    assert_eq!(std::mem::size_of::<InternedGeoId>(), std::mem::size_of::<u32>());
}

#[test]
fn single_correct() {
    let geoid = "181570111003007";
    let mut interner = GeoIdInterner::new();
    let id: InternedGeoId = interner.intern(geoid);
    assert_eq!(interner.resolve(id).as_deref(), Some(geoid));
}

#[test]
fn insert_twice_correct() {
    let geoid = "181570111003007";
    let mut interner = GeoIdInterner::new();
    let id_first: InternedGeoId = interner.intern(geoid);
    let id_second: InternedGeoId = interner.intern(geoid);
    assert_eq!(interner.resolve(id_first).as_deref(), Some(geoid));
    assert_eq!(interner.resolve(id_second).as_deref(), Some(geoid));
}

#[test]
fn insert_twice_then_once_correct() {
    let geoid_first = "181570111003007";
    let geoid_second = "181570111003006";
    let mut interner = GeoIdInterner::new();
    let id_first_first: InternedGeoId = interner.intern(geoid_first);
    let id_first_second: InternedGeoId = interner.intern(geoid_first);
    let id_second: InternedGeoId = interner.intern(geoid_second);
    assert_eq!(interner.resolve(id_first_first).as_deref(), Some(geoid_first));
    assert_eq!(interner.resolve(id_first_second).as_deref(), Some(geoid_first));
    assert_eq!(interner.resolve(id_second).as_deref(), Some(geoid_second));
}

#[test]
fn interner_intern_twice_same_reuses_same_id() {
    let mut interner = GeoIdInterner::new();
    assert_eq!(interner.intern("a string"), InternedGeoId(0));
    assert_eq!(interner.intern("a string"), InternedGeoId(0));
}

#[test]
fn interner_intern_twice_and_another_generates_separate_ids() {
    let mut interner = GeoIdInterner::new();
    assert_eq!(interner.intern("a string"), InternedGeoId(0));
    assert_eq!(interner.intern("a string"), InternedGeoId(0));
    assert_eq!(interner.intern("another string"), InternedGeoId(1));
}

#[test]
fn interner_intern_and_get() {
    let string = String::from("a string");
    let mut interner = GeoIdInterner::new();
    let interned = interner.intern(&string);
    let resolved = interner.resolve(interned);
    assert!(resolved.is_some());
    assert_eq!(resolved.unwrap(), string);
}

#[test]
fn interner_intern_and_get_multiple() {
    let mut interner = GeoIdInterner::new();
    let geoid_0_0 = interner.intern("a string");
    let geoid_0_1 = interner.intern("a string");
    let geoid_1_0 = interner.intern("another string");
    let geoid_0_2 = interner.intern("a string");
    let geoid_1_1 = interner.intern("another string");
    assert!(geoid_0_0 == geoid_0_1 && geoid_0_1 == geoid_0_2);
    assert!(geoid_1_0 == geoid_1_1);
}

#[test]
fn uninserted() {
    let interner = GeoIdInterner::new();
    assert!(interner.resolve(InternedGeoId(1657)).is_none());
    assert!(interner.resolve(InternedGeoId(0)).is_none());
}

#[test]
fn interning_n_times_counts_distinct_strings() {
    let mut interner = GeoIdInterner::new();
    let words = ["a", "b", "a", "c", "b", "a"];
    let mut ids = Vec::new();
    for w in words.iter() {
        ids.push(interner.intern(w));
    }
    assert_eq!(ids, vec![InternedGeoId(0), InternedGeoId(1), InternedGeoId(0), InternedGeoId(2), InternedGeoId(1), InternedGeoId(0)]);
    assert_eq!(interner.len(), 3);
}

#[test]
fn id_intern_and_get() {
    let string = String::from("a string");
    let geoid = GeoId::from(string);
    assert!(geoid.is_raw());
    let mut interner = GeoIdInterner::new();
    let interned_geoid = interner.intern_geoid(geoid);
    assert!(interned_geoid.is_interned());
    let raw_geoid = interner.get(interned_geoid);
    assert!(raw_geoid.is_some());
    assert!(raw_geoid.unwrap().is_raw());
}

#[test]
fn id_intern_and_get_multiple() {
    let mut interner = GeoIdInterner::new();
    let geoid_0_0 = interner.intern_geoid(GeoId::from(String::from("a string")));
    let geoid_0_1 = interner.intern_geoid(GeoId::from(String::from("a string")));
    let geoid_1_0 = interner.intern_geoid(GeoId::from(String::from("another string")));
    let geoid_0_2 = interner.intern_geoid(GeoId::from(String::from("a string")));
    let geoid_1_1 = interner.intern_geoid(GeoId::from(String::from("another string")));
    assert!(geoid_0_0.is_interned());
    assert!(geoid_0_1.is_interned());
    assert!(geoid_0_2.is_interned());
    assert!(geoid_1_0.is_interned());
    assert!(geoid_1_1.is_interned());
    match ((geoid_0_0, geoid_0_1, geoid_0_2), (geoid_1_0, geoid_1_1)) {
        (
            (GeoId::Interned(name_0_0), GeoId::Interned(name_0_1), GeoId::Interned(name_0_2)),
            (GeoId::Interned(name_1_0), GeoId::Interned(name_1_1)),
        ) => {
            assert!(name_0_0 == name_0_1 && name_0_1 == name_0_2);
            assert!(name_1_0 == name_1_1);
        }
        _ => unreachable!(),
    }
}

#[test]
fn id_intern_twice_same_reuses_same_id() {
    let mut interner = GeoIdInterner::new();
    assert_eq!(interner.intern("a string"), InternedGeoId(0));
    assert_eq!(interner.intern("a string"), InternedGeoId(0));
}

#[test]
fn id_intern_twice_and_another_generates_separate_ids() {
    let mut interner = GeoIdInterner::new();
    assert_eq!(interner.intern("a string"), InternedGeoId(0));
    assert_eq!(interner.intern("a string"), InternedGeoId(0));
    assert_eq!(interner.intern("another string"), InternedGeoId(1));
}

#[test]
fn inserted() {
    let mut interner = GeoIdInterner::new();
    let interned = interner.intern("a string");
    assert!(interner.contains(interned));
}

#[test]
fn contains_is_false_before_interning() {
    let interner = GeoIdInterner::new();
    assert!(!interner.contains(InternedGeoId(1657)));
    assert!(!interner.contains(InternedGeoId(0)));
}

#[test]
fn get_of_unissued_interned_is_none() {
    let interner = GeoIdInterner::new();
    assert!(interner.get(GeoId::Interned(1675)).is_none());
    match interner.get(GeoId::Raw("x".to_string())) {
        Some(GeoId::Raw(s)) => assert_eq!(s, "x"),
        _ => unreachable!(),
    }
}

#[test]
fn interned_and_raw_convert_both_ways() {
    let interned = palapelify::Interned::from(7_u32);
    assert_eq!(u32::from(interned), 7);
    let raw = Raw::from(String::from("181570111003007"));
    assert_eq!(raw.as_str(), "181570111003007");
    assert_eq!(String::from(raw), "181570111003007");
}
