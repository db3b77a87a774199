use bevyinit::parser::parse_template;
use bevyinit::registry::{get_templates, load_local, merge_one, LoadError, RemoteError};
use bevyinit::render::render_template;
use bevyinit::template::{get_selections, Origin, Template};

fn doc(name: &str, order: Option<usize>, body: &str) -> String {
    let order_txt = match order {
        None => "None".to_string(),
        Some(k) => format!("Some({})", k),
    };
    format!(
        "(\n    beauty_name: \"{}\",\n    force_order: {},\n    bevy_version: \"0.13\",\n    extra_crates: {{}},\n)\n--!code\n{}",
        name, order_txt, body
    )
}

fn docs_bytes(docs: &[String]) -> Vec<Vec<u8>> {
    docs.iter().map(|d| d.as_bytes().to_vec()).collect()
}

fn names(ts: &[Template]) -> Vec<String> {
    ts.iter().map(|t| t.beauty_name.clone()).collect()
}

#[test]
fn parses_document_with_marker() {
    let raw = doc("Minimal", Some(0), "fn main() {}\n");
    let t = parse_template(raw, Origin::Local).unwrap();
    assert_eq!(t.beauty_name, "Minimal");
    assert_eq!(t.force_order, Some(0));
    assert_eq!(t.bevy_version, "0.13");
    assert_eq!(t.main_code, "fn main() {}");
    assert_eq!(t.origin, Origin::Local);
    assert!(t.extra_crates.is_empty());
}

#[test]
fn marker_detection_no_marker_means_empty_code() {
    let raw = "(beauty_name: \"A\", bevy_version: \"0.12\")".to_string();
    let t = parse_template(raw, Origin::Local).unwrap();
    assert_eq!(t.beauty_name, "A");
    assert_eq!(t.main_code, "");
}

#[test]
fn code_body_is_trimmed_and_kept_verbatim() {
    let raw = "(beauty_name:\"A\",bevy_version:\"1\")\n--!code\n\n  fn main() {}\n// --!code stays in body\n\n".to_string();
    let t = parse_template(raw, Origin::Local).unwrap();
    assert_eq!(t.main_code, "fn main() {}\n// --!code stays in body");
}

#[test]
fn metadata_extra_crates_and_unknown_fields() {
    let raw = "(beauty_name:\"A\",unknown_field: Some(3),bevy_version:\"1\",extra_crates:{\"rand\":\"0.8\",\"serde\":\"1\"})".to_string();
    let t = parse_template(raw, Origin::Local).unwrap();
    assert_eq!(t.extra_crates.len(), 2);
    assert_eq!(t.extra_crates[0].0, "rand");
    assert_eq!(t.extra_crates[0].1, "0.8");
    assert_eq!(t.extra_crates[1].0, "serde");
    assert_eq!(t.extra_crates[1].1, "1");
}

#[test]
fn metadata_missing_beauty_name_fails() {
    let raw = "(bevy_version:\"1\")\n--!code\nx".to_string();
    assert_eq!(
        parse_template(raw, Origin::Local).unwrap_err(),
        LoadError::MalformedTemplate
    );
}

#[test]
fn metadata_missing_bevy_version_fails() {
    let raw = "(beauty_name:\"A\")".to_string();
    assert_eq!(
        parse_template(raw, Origin::Local).unwrap_err(),
        LoadError::MalformedTemplate
    );
}

#[test]
fn metadata_duplicate_field_fails() {
    let raw = "(beauty_name:\"A\",beauty_name:\"B\",bevy_version:\"1\")".to_string();
    assert!(parse_template(raw, Origin::Local).is_err());
}

#[test]
fn metadata_trailing_garbage_fails() {
    let raw = "(beauty_name:\"A\",bevy_version:\"1\") junk".to_string();
    assert!(parse_template(raw, Origin::Local).is_err());
}

#[test]
fn metadata_huge_force_order_fails() {
    let raw = "(beauty_name:\"A\",force_order:Some(99999999999999999999999999),bevy_version:\"1\")".to_string();
    assert!(parse_template(raw, Origin::Local).is_err());
}

#[test]
fn string_escapes_are_decoded() {
    let raw = "(beauty_name:\"A \\\"quoted\\\" \\\\ name\\n\",bevy_version:\"1\")".to_string();
    let t = parse_template(raw, Origin::Local).unwrap();
    assert_eq!(t.beauty_name, "A \"quoted\" \\ name\n");
}

#[test]
fn placement_hint_ordering() {
    let a = doc("A", None, "a");
    let b = doc("B", Some(0), "b");
    let c = doc("C", None, "c");
    let loaded = load_local(&docs_bytes(&[a, b, c])).unwrap();
    assert_eq!(names(&loaded), vec!["B", "A", "C"]);
}

#[test]
fn placement_hint_collision() {
    let x = doc("X", Some(0), "x");
    let y = doc("Y", Some(0), "y");
    let loaded = load_local(&docs_bytes(&[x, y])).unwrap();
    assert_eq!(names(&loaded), vec!["Y", "X"]);
}

#[test]
fn placement_hint_beyond_end_appends() {
    let a = doc("A", Some(7), "a");
    let b = doc("B", None, "b");
    let loaded = load_local(&docs_bytes(&[a, b])).unwrap();
    assert_eq!(names(&loaded), vec!["A", "B"]);
}

#[test]
fn merge_one_inserts_at_hint() {
    let base = load_local(&docs_bytes(&[doc("A", None, "a"), doc("B", None, "b")])).unwrap();
    let t = parse_template(doc("R", Some(1), "r"), Origin::Remote).unwrap();
    let merged = merge_one(base, t);
    assert_eq!(names(&merged), vec!["A", "R", "B"]);
}

#[test]
fn fatal_propagation_malformed_document() {
    let good = doc("A", None, "a");
    let bad = "(bevy_version:\"1\")\n--!code\nx".to_string();
    let good2 = doc("C", None, "c");
    assert_eq!(
        load_local(&docs_bytes(&[good, bad, good2])).unwrap_err(),
        LoadError::MalformedTemplate
    );
}

#[test]
fn fatal_propagation_invalid_utf8() {
    let good = doc("A", None, "a").into_bytes();
    let bad = vec![0xffu8, 0xfe, 0x00];
    assert_eq!(
        load_local(&vec![good, bad]).unwrap_err(),
        LoadError::AssetReadError
    );
}

#[test]
fn graceful_degradation_on_network_error() {
    let docs = docs_bytes(&[doc("A", None, "a"), doc("B", Some(0), "b")]);
    let (with_failure, warned) =
        get_templates(&docs, Some(Err(RemoteError::NetworkError))).unwrap();
    let (local_only, quiet) = get_templates(&docs, None).unwrap();
    assert!(warned);
    assert!(!quiet);
    assert_eq!(names(&with_failure), names(&local_only));
}

#[test]
fn remote_templates_fold_with_hints() {
    let docs = docs_bytes(&[doc("A", None, "a"), doc("B", None, "b")]);
    let remote = vec![
        parse_template(doc("R", Some(0), "r"), Origin::Remote).unwrap(),
        parse_template(doc("S", None, "s"), Origin::Remote).unwrap(),
    ];
    let (merged, warned) = get_templates(&docs, Some(Ok(remote))).unwrap();
    assert!(!warned);
    assert_eq!(names(&merged), vec!["R", "A", "B", "S"]);
}

#[test]
fn label_formatting() {
    let local = parse_template(doc("Minimal", None, "x"), Origin::Local).unwrap();
    let remote = parse_template(doc("Minimal", None, "x"), Origin::Remote).unwrap();
    let labels = get_selections(&vec![local, remote]);
    assert_eq!(labels[0], "Minimal (0.13) [included]");
    assert_eq!(labels[1], "Minimal (0.13) [online]");
}

#[test]
fn round_trip_preserves_fields() {
    let original = Template {
        beauty_name: "A \"tricky\" name\nwith lines\\".to_string(),
        force_order: Some(3),
        bevy_version: "0.13.1".to_string(),
        extra_crates: vec![
            ("rand".to_string(), "0.8".to_string()),
            ("serde".to_string(), "1.0".to_string()),
        ],
        main_code: "fn main() {\n    println!(\"hi\");\n}".to_string(),
        origin: Origin::Local,
    };
    let rendered = render_template(&original);
    let parsed = parse_template(rendered, Origin::Local).unwrap();
    assert_eq!(parsed.beauty_name, original.beauty_name);
    assert_eq!(parsed.force_order, original.force_order);
    assert_eq!(parsed.bevy_version, original.bevy_version);
    assert_eq!(parsed.extra_crates, original.extra_crates);
    assert_eq!(parsed.main_code, original.main_code);
    assert_eq!(parsed.origin, Origin::Local);
}

#[test]
fn round_trip_trims_code_body() {
    let original = Template {
        beauty_name: "N".to_string(),
        force_order: None,
        bevy_version: "1".to_string(),
        extra_crates: vec![],
        main_code: "  body  ".to_string(),
        origin: Origin::Remote,
    };
    let rendered = render_template(&original);
    let parsed = parse_template(rendered, Origin::Remote).unwrap();
    assert_eq!(parsed.main_code, "body");
    assert_eq!(parsed.origin, Origin::Remote);
}
