use metadata_compat::aggregate::Report;
use metadata_compat::envelope::{
    accept_envelope, accept_fetched, normalize, validate_marker, FetchError, FetchFailure,
};
use metadata_compat::hashing::{find_subsystem, hash_full, hash_subsystem};
use metadata_compat::model::{
    Document, DocumentV14, Envelope, Payload, Subsystem, SubsystemV14, TypeEntry,
};

const MARKER: u32 = 0x6174656d;

fn ty(shape: &[u8], refs: &[usize]) -> TypeEntry {
    TypeEntry { shape: shape.to_vec(), refs: refs.to_vec() }
}

fn sub(name: &str, shape: &[u8], refs: &[usize], error: Option<usize>) -> Subsystem {
    Subsystem {
        name: name.to_string(),
        shape: shape.to_vec(),
        refs: refs.to_vec(),
        error,
        docs: Vec::new(),
    }
}

/// Registry: 0 -> 1, 2 alone, 3 -> 2.
fn registry() -> Vec<TypeEntry> {
    vec![ty(b"t0", &[1]), ty(b"t1", &[]), ty(b"t2", &[]), ty(b"t3", &[2])]
}

fn doc_a() -> Document {
    Document {
        subsystems: vec![sub("X", b"x", &[0], None), sub("Y", b"y", &[3], Some(2))],
        types: registry(),
    }
}

/// Differs from `doc_a` in subsystem Y only, and in a type X does not reach.
fn doc_c() -> Document {
    let mut types = registry();
    types[2] = ty(b"changed", &[]);
    Document {
        subsystems: vec![sub("X", b"x", &[0], None), sub("Y", b"other", &[3, 2], None)],
        types,
    }
}

fn names(v: &[String]) -> Vec<&str> {
    v.iter().map(|s| s.as_str()).collect()
}

#[test]
fn scoped_check_groups_nodes_that_differ_elsewhere() {
    let x = "X".to_string();
    let mut r = Report::new();
    r.record_scoped("A".to_string(), &doc_a(), &x);
    r.record_scoped("B".to_string(), &doc_a(), &x);
    r.record_scoped("C".to_string(), &doc_c(), &x);
    assert_eq!(r.buckets.len(), 1);
    assert_eq!(names(&r.buckets[0].nodes), vec!["A", "B", "C"]);
    assert!(r.not_found.is_empty());
}

#[test]
fn full_check_separates_node_that_differs_elsewhere() {
    let mut r = Report::new();
    r.record_full("A".to_string(), &doc_a());
    r.record_full("B".to_string(), &doc_a());
    r.record_full("C".to_string(), &doc_c());
    assert_eq!(r.buckets.len(), 2);
    assert_eq!(names(&r.buckets[0].nodes), vec!["A", "B"]);
    assert_eq!(names(&r.buckets[1].nodes), vec!["C"]);
    assert!(r.not_found.is_empty());
}

#[test]
fn wrong_marker_is_invalid_envelope_naming_node_and_markers() {
    let env = Envelope { marker: 0x1234_5678, payload: Payload::V15(doc_a()) };
    match accept_envelope(&"D".to_string(), env) {
        Err(FetchError::InvalidEnvelope { node, observed, expected }) => {
            assert_eq!(node, "D");
            assert_eq!(observed, 0x1234_5678);
            assert_eq!(expected, MARKER);
        }
        _ => panic!("expected an invalid envelope"),
    }
}

#[test]
fn absent_subsystem_goes_to_not_found() {
    let ledger = "Ledger".to_string();
    let with_ledger = || Document {
        subsystems: vec![sub("Ledger", b"l", &[1], None)],
        types: registry(),
    };
    let mut r = Report::new();
    r.record_scoped("E".to_string(), &doc_a(), &ledger);
    r.record_scoped("F".to_string(), &with_ledger(), &ledger);
    r.record_scoped("G".to_string(), &with_ledger(), &ledger);
    assert_eq!(r.buckets.len(), 1);
    assert_eq!(names(&r.buckets[0].nodes), vec!["F", "G"]);
    assert_eq!(names(&r.not_found), vec!["E"]);
}

#[test]
fn hash_subsystem_is_none_for_missing_name() {
    assert!(hash_subsystem(&doc_a(), &"Z".to_string()).is_none());
    assert!(hash_subsystem(&doc_a(), &"X".to_string()).is_some());
    assert_eq!(find_subsystem(&doc_a(), &"Y".to_string()), Some(1));
}

#[test]
fn hashing_is_deterministic_and_32_bytes() {
    let h1 = hash_full(&doc_a());
    let h2 = hash_full(&doc_a());
    assert_eq!(h1, h2);
    assert_eq!(h1.len(), 32);
}

#[test]
fn docs_do_not_change_digests() {
    let mut d = doc_a();
    d.subsystems[0].docs.push("documentation".to_string());
    assert_eq!(hash_full(&d), hash_full(&doc_a()));
    let x = "X".to_string();
    assert_eq!(hash_subsystem(&d, &x), hash_subsystem(&doc_a(), &x));
}

#[test]
fn unreached_type_change_keeps_scoped_digest_but_not_full() {
    let mut d = doc_a();
    d.types[2] = ty(b"t2 changed", &[]);
    let x = "X".to_string();
    assert_eq!(hash_subsystem(&d, &x), hash_subsystem(&doc_a(), &x));
    assert_ne!(hash_full(&d), hash_full(&doc_a()));
}

#[test]
fn reached_type_change_changes_scoped_digest() {
    let mut d = doc_a();
    d.types[1] = ty(b"t1 changed", &[]);
    let x = "X".to_string();
    assert_ne!(hash_subsystem(&d, &x), hash_subsystem(&doc_a(), &x));
}

#[test]
fn error_type_is_in_scope() {
    let mut d = doc_a();
    d.types[2] = ty(b"t2 changed", &[]);
    let y = "Y".to_string();
    assert_ne!(hash_subsystem(&d, &y), hash_subsystem(&doc_a(), &y));
}

#[test]
fn older_version_hashes_like_equivalent_latest() {
    let old = DocumentV14 {
        subsystems: vec![
            SubsystemV14 { name: "X".to_string(), shape: b"x".to_vec(), refs: vec![0], error: None },
            SubsystemV14 {
                name: "Y".to_string(),
                shape: b"y".to_vec(),
                refs: vec![3],
                error: Some(2),
            },
        ],
        types: registry(),
    };
    let d = match normalize(&"N".to_string(), Payload::V14(old)) {
        Ok(d) => d,
        Err(_) => panic!("older version is recognised"),
    };
    assert_eq!(d.subsystems.len(), 2);
    assert_eq!(d.subsystems[1].name, "Y");
    assert!(d.subsystems[1].docs.is_empty());
    assert_eq!(hash_full(&d), hash_full(&doc_a()));
    let y = "Y".to_string();
    assert_eq!(hash_subsystem(&d, &y), hash_subsystem(&doc_a(), &y));
}

#[test]
fn latest_version_passes_through() {
    let env = Envelope { marker: MARKER, payload: Payload::V15(doc_a()) };
    let d = match accept_envelope(&"N".to_string(), env) {
        Ok(d) => d,
        Err(_) => panic!("valid envelope"),
    };
    assert_eq!(hash_full(&d), hash_full(&doc_a()));
    assert_eq!(d.subsystems.len(), 2);
}

#[test]
fn unsupported_version_is_reported() {
    let env = Envelope { marker: MARKER, payload: Payload::Unsupported(13) };
    match accept_envelope(&"N".to_string(), env) {
        Err(FetchError::UnsupportedVersion { node, observed }) => {
            assert_eq!(node, "N");
            assert_eq!(observed, 13);
        }
        _ => panic!("expected an unsupported version"),
    }
}

#[test]
fn marker_check() {
    assert!(validate_marker(&"N".to_string(), MARKER).is_ok());
    assert!(validate_marker(&"N".to_string(), 0).is_err());
}

#[test]
fn aggregation_partitions_in_order() {
    let mut r = Report::new();
    r.record("n1".to_string(), Some(vec![1, 2]));
    r.record("n2".to_string(), None);
    r.record("n3".to_string(), Some(vec![3]));
    r.record("n4".to_string(), Some(vec![1, 2]));
    r.record("n5".to_string(), None);
    assert_eq!(r.buckets.len(), 2);
    assert_eq!(r.buckets[0].digest, vec![1, 2]);
    assert_eq!(names(&r.buckets[0].nodes), vec!["n1", "n4"]);
    assert_eq!(r.buckets[1].digest, vec![3]);
    assert_eq!(names(&r.buckets[1].nodes), vec!["n3"]);
    assert_eq!(names(&r.not_found), vec!["n2", "n5"]);
}

#[test]
fn empty_report_has_nothing() {
    let r = Report::new();
    assert!(r.buckets.is_empty());
    assert!(r.not_found.is_empty());
    assert!(r.hex_buckets().is_empty());
}

#[test]
fn same_endpoint_twice_is_listed_twice() {
    let mut r = Report::new();
    r.record_full("A".to_string(), &doc_a());
    r.record_full("A".to_string(), &doc_a());
    assert_eq!(r.buckets.len(), 1);
    assert_eq!(names(&r.buckets[0].nodes), vec!["A", "A"]);
}

#[test]
fn hex_buckets_render_digests() {
    let mut r = Report::new();
    r.record("n1".to_string(), Some(vec![0xab, 0x01]));
    r.record("n2".to_string(), Some(vec![0x00, 0xff]));
    let h = r.hex_buckets();
    assert_eq!(h.len(), 2);
    assert_eq!(h[0].0, "ab01");
    assert_eq!(h[0].1, vec!["n1".to_string()]);
    assert_eq!(h[1].0, "00ff");
}

#[test]
fn empty_document_and_empty_registry() {
    let d = Document { subsystems: Vec::new(), types: Vec::new() };
    assert_eq!(hash_full(&d).len(), 32);
    assert!(hash_subsystem(&d, &"X".to_string()).is_none());
    let out_of_range = Document {
        subsystems: vec![sub("X", b"x", &[7], Some(9))],
        types: Vec::new(),
    };
    assert!(hash_subsystem(&out_of_range, &"X".to_string()).is_some());
}

#[test]
fn unreachable_node_is_transport_error() {
    match accept_fetched(&"T".to_string(), Err(FetchFailure::Unreachable)) {
        Err(FetchError::Transport { node }) => assert_eq!(node, "T"),
        _ => panic!("expected a transport error"),
    }
}

#[test]
fn malformed_bytes_are_decode_error() {
    match accept_fetched(&"M".to_string(), Err(FetchFailure::Malformed)) {
        Err(FetchError::Decode { node }) => assert_eq!(node, "M"),
        _ => panic!("expected a decode error"),
    }
}

#[test]
fn fetched_envelope_is_accepted() {
    let env = Envelope { marker: MARKER, payload: Payload::V15(doc_a()) };
    match accept_fetched(&"N".to_string(), Ok(env)) {
        Ok(d) => assert_eq!(hash_full(&d), hash_full(&doc_a())),
        Err(_) => panic!("valid envelope"),
    }
}

#[test]
fn outcomes_aggregate_like_successive_records() {
    let outcomes = vec![
        ("n1".to_string(), Some(vec![9u8])),
        ("n2".to_string(), Some(vec![8u8])),
        ("n3".to_string(), None),
        ("n4".to_string(), Some(vec![9u8])),
    ];
    let r = Report::from_outcomes(outcomes);
    assert_eq!(r.buckets.len(), 2);
    assert_eq!(r.buckets[0].digest, vec![9]);
    assert_eq!(names(&r.buckets[0].nodes), vec!["n1", "n4"]);
    assert_eq!(names(&r.buckets[1].nodes), vec!["n2"]);
    assert_eq!(names(&r.not_found), vec!["n3"]);
    let total: usize = r.buckets.iter().map(|b| b.nodes.len()).sum::<usize>() + r.not_found.len();
    assert_eq!(total, 4);
}
