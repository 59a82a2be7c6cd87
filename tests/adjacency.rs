use palapelify::pairs::{adjacency_pairs, merge_pairs, partition_incidences};
use palapelify::{
    Error, Feature, FeatureProperties, GeoScalar, GeometryInterner, GeometryPoint, Property,
};

fn feature(id: &str, vertices: &[(&str, &str)]) -> Feature {
    Feature {
        properties: FeatureProperties {
            entries: vec![Property { key: "GEOID20".to_string(), value: Some(id.to_string()) }],
        },
        geometry: Some(vertices.iter().map(|(x, y)| (x.to_string(), y.to_string())).collect()),
    }
}

fn square(id: &str, x0: i32, y0: i32) -> Feature {
    let c = |x: i32, y: i32| (format!("{}.5", x), format!("{}.25", y));
    let pts = [c(x0, y0), c(x0 + 1, y0), c(x0 + 1, y0 + 1), c(x0, y0 + 1), c(x0, y0)];
    Feature {
        properties: FeatureProperties {
            entries: vec![Property { key: "GEOID10".to_string(), value: Some(id.to_string()) }],
        },
        geometry: Some(pts.to_vec()),
    }
}

fn graph_lines(features: Vec<Feature>) -> String {
    let mut interner = GeometryInterner::new();
    interner.load_features(&features).expect("features load");
    interner.compute_adjacencies().to_text()
}

#[test]
fn converts_positive_in_range() {
    assert_eq!(GeoScalar::from_decimal("87.31275"), Ok(GeoScalar(87312750)));
}

#[test]
fn converts_negative_in_range() {
    assert_eq!(GeoScalar::from_decimal("-37.172718"), Ok(GeoScalar(-37172718)));
}

#[test]
fn asserts_in_range_positive() {
    assert_eq!(GeoScalar::from_decimal("180.0"), Err(Error::CoordinateOutOfRange));
}

#[test]
fn asserts_in_range_negative() {
    assert_eq!(GeoScalar::from_decimal("-180.0"), Err(Error::CoordinateOutOfRange));
}

#[test]
fn rejects_large_magnitudes() {
    assert_eq!(GeoScalar::from_decimal("180"), Err(Error::CoordinateOutOfRange));
    assert_eq!(GeoScalar::from_decimal("-1000.5"), Err(Error::CoordinateOutOfRange));
    assert_eq!(GeoScalar::from_decimal("179.9999999"), Ok(GeoScalar(179999999)));
}

#[test]
fn truncates_toward_zero() {
    assert_eq!(GeoScalar::from_decimal("1.23456789"), Ok(GeoScalar(1234567)));
    assert_eq!(GeoScalar::from_decimal("-1.23456789"), Ok(GeoScalar(-1234567)));
    assert_eq!(GeoScalar::from_decimal("-0.0000009"), Ok(GeoScalar(0)));
    assert_eq!(GeoScalar::from_decimal("12"), Ok(GeoScalar(12000000)));
}

#[test]
fn round_trip_within_a_millionth() {
    for (text, value) in [("87.31275", 87.31275_f64), ("-37.172718", -37.172718), ("0.1234567", 0.1234567)] {
        let q = GeoScalar::from_decimal(text).unwrap();
        let back = q.0 as f64 / 1e6;
        assert!((back - value).abs() < 1e-6);
    }
}

#[test]
fn rejects_malformed_text() {
    for text in ["", "-", ".5", "5.", "1e5", "+1.0", "1.2.3", "NaN", "1,5"] {
        assert_eq!(GeoScalar::from_decimal(text), Err(Error::MalformedCoordinate), "{}", text);
    }
}

#[test]
fn point_reads_latitude_first() {
    assert_eq!(
        GeometryPoint::from_decimal("-71.5", "41.25"),
        Ok(GeometryPoint(GeoScalar(41250000), GeoScalar(-71500000)))
    );
    assert_eq!(GeometryPoint::from_decimal("200", "x"), Err(Error::MalformedCoordinate));
    assert_eq!(GeometryPoint::from_decimal("200", "1"), Err(Error::CoordinateOutOfRange));
}

#[test]
fn point_keys_differ_for_distinct_points() {
    let a = GeometryPoint(GeoScalar(1), GeoScalar(2));
    let b = GeometryPoint(GeoScalar(2), GeoScalar(1));
    let c = GeometryPoint(GeoScalar(-1), GeoScalar(i32::MAX));
    assert_ne!(a.key(), b.key());
    assert_ne!(a.key(), c.key());
    assert_eq!(GeometryPoint(GeoScalar(0), GeoScalar(0)).key(), 0x8000_0000_8000_0000);
}

#[test]
fn two_squares_sharing_an_edge() {
    let text = graph_lines(vec![square("A", 0, 0), square("B", 1, 0)]);
    assert_eq!(text, "A,B\nB,A\n");
}

#[test]
fn three_regions_meeting_at_a_corner() {
    let corner = ("1.0", "1.0");
    let a = feature("A", &[("0.0", "0.0"), ("1.0", "0.0"), corner]);
    let b = feature("B", &[corner, ("2.0", "1.0"), ("2.0", "2.0")]);
    let c = feature("C", &[("0.0", "2.0"), corner, ("0.5", "1.5")]);
    let text = graph_lines(vec![a, b, c]);
    assert_eq!(text, "A,B\nA,C\nB,A\nB,C\nC,A\nC,B\n");
}

#[test]
fn isolated_region_has_no_entry() {
    let mut interner = GeometryInterner::new();
    let features = vec![square("A", 0, 0), square("B", 1, 0), square("Z", 50, 50)];
    interner.load_features(&features).unwrap();
    let graph = interner.compute_adjacencies();
    assert_eq!(graph.neighbors("Z"), Vec::<String>::new());
    assert_eq!(graph.neighbors("A"), vec!["B".to_string()]);
    for k in 0..graph.len() {
        let (x, y) = graph.pair(k);
        assert_ne!(x, "Z");
        assert_ne!(y, "Z");
    }
}

#[test]
fn missing_identifier_fails_ingestion() {
    let mut interner = GeometryInterner::new();
    let nameless = Feature {
        properties: FeatureProperties {
            entries: vec![Property { key: "NAME".to_string(), value: Some("x".to_string()) }],
        },
        geometry: Some(vec![("1.0".to_string(), "1.0".to_string())]),
    };
    assert_eq!(interner.load_features(&vec![square("A", 0, 0), nameless]), Err(Error::MissingIdentifier));
}

#[test]
fn missing_geometry_fails_ingestion() {
    let mut interner = GeometryInterner::new();
    let mut f = square("A", 0, 0);
    f.geometry = None;
    assert_eq!(interner.load_feature(&f), Err(Error::UnresolvableFeature));
}

#[test]
fn bad_coordinate_fails_ingestion() {
    let mut interner = GeometryInterner::new();
    let f = feature("A", &[("0.0", "0.0"), ("180.0", "1.0")]);
    assert_eq!(interner.load_feature(&f), Err(Error::CoordinateOutOfRange));
}

#[test]
fn output_is_independent_of_input_order() {
    let forward = graph_lines(vec![square("A", 0, 0), square("B", 1, 0), square("C", 0, 1), square("D", 5, 5)]);
    let backward = graph_lines(vec![square("D", 5, 5), square("C", 0, 1), square("B", 1, 0), square("A", 0, 0)]);
    assert_eq!(forward, backward);
    assert_eq!(forward, "A,B\nA,C\nB,A\nB,C\nC,A\nC,B\n");
}

#[test]
fn adjacency_is_symmetric_and_irreflexive() {
    let mut interner = GeometryInterner::new();
    let features = vec![square("A", 0, 0), square("B", 1, 0), square("C", 2, 0), square("D", 1, 1)];
    interner.load_features(&features).unwrap();
    let graph = interner.compute_adjacencies();
    let pairs: Vec<(String, String)> = (0..graph.len()).map(|k| graph.pair(k)).collect();
    for (x, y) in &pairs {
        assert_ne!(x, y);
        assert!(pairs.contains(&(y.clone(), x.clone())));
    }
    let mut sorted = pairs.clone();
    sorted.sort();
    sorted.dedup();
    assert_eq!(sorted, pairs);
}

#[test]
fn repeated_region_identifier_is_one_region() {
    let text = graph_lines(vec![square("A", 0, 0), square("A", 1, 0)]);
    assert_eq!(text, "");
}

#[test]
fn merged_parts_give_the_whole_for_any_worker_count() {
    let mut interner = GeometryInterner::new();
    let features = vec![square("A", 0, 0), square("B", 1, 0), square("C", 2, 0), square("D", 1, 1), square("E", 9, 9)];
    interner.load_features(&features).unwrap();
    let whole = interner.compute_adjacencies().to_text();
    for workers in 1..=7u64 {
        let parts = interner.point_partition(workers);
        assert_eq!(parts.len() as u64, workers);
        let partials: Vec<Vec<(u64, u64)>> = parts.iter().map(adjacency_pairs).collect();
        let merged = merge_pairs(&partials);
        assert_eq!(interner.graph_of_pairs(&merged).to_text(), whole);
    }
}

#[test]
fn adjacency_pairs_of_raw_incidences() {
    let incidences = vec![(7, 2), (5, 0), (7, 1), (5, 1), (7, 2), (9, 3)];
    assert_eq!(adjacency_pairs(&incidences), vec![(0, 1), (1, 0), (1, 2), (2, 1)]);
    assert_eq!(adjacency_pairs(&Vec::new()), Vec::<(u64, u64)>::new());
}

#[test]
fn merge_pairs_sorts_and_dedups() {
    let partials = vec![vec![(3, 1), (0, 2)], vec![], vec![(0, 2), (1, 1)]];
    assert_eq!(merge_pairs(&partials), vec![(0, 2), (1, 1), (3, 1)]);
}

#[test]
fn partition_keeps_points_together() {
    let incidences = vec![(4, 0), (5, 1), (4, 2), (6, 3)];
    let parts = partition_incidences(&incidences, 2);
    assert_eq!(parts, vec![vec![(4, 0), (4, 2), (6, 3)], vec![(5, 1)]]);
}

#[test]
fn graph_of_pairs_skips_unissued_identifiers() {
    let mut interner = GeometryInterner::new();
    interner.load_features(&vec![square("A", 0, 0), square("B", 1, 0)]).unwrap();
    let graph = interner.graph_of_pairs(&vec![(1, 0), (0, 5), (0, 1)]);
    assert_eq!(graph.to_text(), "A,B\nB,A\n");
}
