use bevyinit::manifest::{manifest_url, parse_manifest, parse_remote_documents, template_url};
use bevyinit::registry::RemoteError;
use bevyinit::template::Origin;

fn sample_manifest() -> String {
    "# remote template index\n[bevyinit]\nversion = \"1\"\nbin_version = \"0.2.0\"\ntemplate_path = \"templates\"\n\n[data]\ntemplates = [\"minimal\", \"sprite\"]\ncrates = []\nrepos = [\"bevyinit_data\"]\n".to_string()
}

#[test]
fn manifest_decodes_all_fields() {
    let m = parse_manifest(sample_manifest()).unwrap();
    assert_eq!(m.version, "1");
    assert_eq!(m.bin_version, "0.2.0");
    assert_eq!(m.template_path, "templates");
    assert_eq!(m.templates, vec!["minimal", "sprite"]);
    assert!(m.crates.is_empty());
    assert_eq!(m.repos, vec!["bevyinit_data"]);
}

#[test]
fn manifest_ignores_unknown_keys_and_sections() {
    let text = "[bevyinit]\nversion = \"1\"\nbin_version = \"2\"\ntemplate_path = \"t\"\nmystery = \"ignored\"\n[future]\nanything = [\"x\"]\n[data]\ntemplates = []\ncrates = []\nrepos = []\n".to_string();
    let m = parse_manifest(text).unwrap();
    assert_eq!(m.version, "1");
}

#[test]
fn manifest_missing_key_fails() {
    let text = "[bevyinit]\nversion = \"1\"\nbin_version = \"2\"\n[data]\ntemplates = []\ncrates = []\nrepos = []\n".to_string();
    assert_eq!(
        parse_manifest(text).unwrap_err(),
        RemoteError::ManifestDecodeError
    );
}

#[test]
fn manifest_malformed_line_fails() {
    let text = "[bevyinit\nversion = \"1\"\n".to_string();
    assert_eq!(
        parse_manifest(text).unwrap_err(),
        RemoteError::ManifestDecodeError
    );
}

#[test]
fn manifest_wrong_value_shape_fails() {
    let text = "[bevyinit]\nversion = [\"1\"]\nbin_version = \"2\"\ntemplate_path = \"t\"\n[data]\ntemplates = []\ncrates = []\nrepos = []\n".to_string();
    assert!(parse_manifest(text).is_err());
}

#[test]
fn manifest_duplicate_key_fails() {
    let text = "[bevyinit]\nversion = \"1\"\nversion = \"2\"\nbin_version = \"2\"\ntemplate_path = \"t\"\n[data]\ntemplates = []\ncrates = []\nrepos = []\n".to_string();
    assert!(parse_manifest(text).is_err());
}

#[test]
fn remote_documents_parse_in_order() {
    let d1 = "(beauty_name:\"R1\",bevy_version:\"1\")\n--!code\none".to_string();
    let d2 = "(beauty_name:\"R2\",bevy_version:\"1\")\n--!code\ntwo".to_string();
    let ts = parse_remote_documents(vec![d1, d2]).unwrap();
    assert_eq!(ts.len(), 2);
    assert_eq!(ts[0].beauty_name, "R1");
    assert_eq!(ts[1].beauty_name, "R2");
    assert_eq!(ts[0].origin, Origin::Remote);
    assert_eq!(ts[1].origin, Origin::Remote);
}

#[test]
fn remote_documents_abort_on_first_malformed() {
    let d1 = "(beauty_name:\"R1\",bevy_version:\"1\")".to_string();
    let bad = "(beauty_name:\"R2\")".to_string();
    assert_eq!(
        parse_remote_documents(vec![d1, bad]).unwrap_err(),
        RemoteError::MalformedTemplate
    );
}

#[test]
fn url_construction() {
    assert_eq!(
        manifest_url(),
        "https://raw.githubusercontent.com/nigrodev/bevyinit_data/main/data.toml"
    );
    assert_eq!(
        template_url("templates", "minimal"),
        "https://raw.githubusercontent.com/nigrodev/bevyinit_data/main/templates/minimal.ron"
    );
}
