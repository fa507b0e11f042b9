use pim::jsondoc::{parse_groups, render_groups, render_groups_pretty};
use pim::labels::Labels;
use pim::target::TargetGroup;
use pim::yamlconv::{groups_from_yaml, json_to_yaml, yaml_to_json};

fn labels_of(pairs: &[(&str, &str)]) -> Labels {
    let mut l = Labels::new();
    for (k, v) in pairs {
        l.insert((*k).to_string(), (*v).to_string());
    }
    l
}

fn strings_of(xs: &[&str]) -> Vec<String> {
    xs.iter().map(|x| (*x).to_string()).collect()
}

fn group_of(job: &str, pairs: &[(&str, &str)], targets: &[&str]) -> TargetGroup {
    TargetGroup::new(job, labels_of(pairs), strings_of(targets))
}

fn groups_equal(a: &[TargetGroup], b: &[TargetGroup]) -> bool {
    a.len() == b.len() && a.iter().zip(b.iter()).all(|(x, y)| {
        x.jobs() == y.jobs() && x.targets() == y.targets() && {
            let (lx, ly) = (x.labels(), y.labels());
            lx.len() == ly.len() && (0..lx.len()).all(|i| {
                lx.key_at(i) == ly.key_at(i) && lx.value_at(i) == ly.value_at(i)
            })
        }
    })
}

#[test]
fn render_compact_exact() {
    let gs = vec![group_of("node", &[("env", "prod")], &["10.0.0.1:9100"])];
    assert_eq!(
        render_groups(&gs),
        "[{\"labels\":{\"env\":\"prod\",\"job\":\"node\"},\"targets\":[\"10.0.0.1:9100\"]}]"
    );
}

#[test]
fn render_compact_empty_cases() {
    assert_eq!(render_groups(&vec![]), "[]");
    let gs = vec![group_of("j", &[], &[])];
    assert_eq!(render_groups(&gs), "[{\"labels\":{\"job\":\"j\"},\"targets\":[]}]");
}

#[test]
fn render_escapes_quotes_backslashes_and_controls() {
    let gs = vec![group_of("q\"b\\c", &[], &["line\nbreak"])];
    let s = render_groups(&gs);
    assert_eq!(
        s,
        "[{\"labels\":{\"job\":\"q\\\"b\\\\c\"},\"targets\":[\"line\\u000abreak\"]}]"
    );
    // The document stays valid JSON for an independent reader.
    let v: serde_json::Value = serde_json::from_str(&s).unwrap();
    assert_eq!(v[0]["labels"]["job"], serde_json::Value::String("q\"b\\c".to_string()));
    assert_eq!(v[0]["targets"][0], serde_json::Value::String("line\nbreak".to_string()));
}

#[test]
fn render_pretty_exact() {
    let gs = vec![group_of("node", &[("env", "prod")], &["10.0.0.1:9100"])];
    let expected = "[\n  {\n    \"labels\": {\n      \"env\": \"prod\",\n      \"job\": \"node\"\n    },\n    \"targets\": [\n      \"10.0.0.1:9100\"\n    ]\n  }\n]";
    assert_eq!(render_groups_pretty(&gs), expected);
    assert_eq!(render_groups_pretty(&vec![]), "[]");
}

#[test]
fn parse_inverts_render() {
    let gs = vec![
        group_of("node", &[("env", "prod")], &["a:1", "b:2"]),
        group_of("api", &[("dc", "eu-1"), ("env", "dev")], &[]),
        group_of("odd \"name\"", &[("p", "a\\b")], &["t\t1"]),
    ];
    let parsed = parse_groups(&render_groups(&gs)).unwrap();
    assert!(groups_equal(&gs, &parsed));
    assert_eq!(parse_groups("[]").unwrap().len(), 0);
}

#[test]
fn parse_accepts_unicode_escapes() {
    let parsed = parse_groups(
        "[{\"labels\":{\"job\":\"\\u0041x\"},\"targets\":[\"\\u000a\"]}]",
    )
    .unwrap();
    assert_eq!(parsed[0].jobs(), "Ax");
    assert_eq!(parsed[0].targets(), &vec!["\n".to_string()]);
}

#[test]
fn parse_derives_job_from_labels() {
    let parsed = parse_groups("[{\"labels\":{\"env\":\"p\"},\"targets\":[]}]").unwrap();
    assert_eq!(parsed[0].jobs(), "unknown");
    let parsed = parse_groups("[{\"labels\":{\"job\":\"x\"},\"targets\":[]}]").unwrap();
    assert_eq!(parsed[0].jobs(), "x");
}

#[test]
fn parse_rejects_malformed_documents() {
    assert!(parse_groups("").is_none());
    assert!(parse_groups("{}").is_none());
    assert!(parse_groups("[").is_none());
    assert!(parse_groups("[{\"labels\":{},\"targets\":[]}]garbage").is_none());
    assert!(parse_groups("[{\"labels\":{\"a\":1},\"targets\":[]}]").is_none());
    assert!(parse_groups("[{\"targets\":[],\"labels\":{}}]").is_none());
    assert!(parse_groups("[{\"labels\":{\"a\":\"b\"},\"targets\":[\"unterminated]}]").is_none());
}

#[test]
fn yaml_round_trip_preserves_groups() {
    // Serializing to JSON, transcoding to YAML and back, then parsing,
    // yields a structurally equal group list.
    let gs = vec![
        group_of("node", &[("env", "prod")], &["10.0.0.1:9100", "10.0.0.2:9100"]),
        group_of("api", &[("env", "dev")], &["a:1"]),
    ];
    let json = render_groups(&gs);
    let yaml = json_to_yaml(&json).unwrap();
    assert_ne!(yaml, json);
    let json2 = yaml_to_json(&yaml).unwrap();
    assert_eq!(json2, json);
    let parsed = parse_groups(&json2).unwrap();
    assert!(groups_equal(&gs, &parsed));
    let decoded = groups_from_yaml(&yaml).unwrap();
    assert!(groups_equal(&gs, &decoded));
}

#[test]
fn groups_from_yaml_rejects_non_documents() {
    assert!(groups_from_yaml(": [bad").is_err());
    let e = groups_from_yaml("just a scalar").unwrap_err();
    assert!(matches!(e.source, pim::error::SourceError::SerdeYaml(_)));
    assert_eq!(e.code, Some(1));
}

#[test]
fn yaml_of_rendered_document_is_block_style() {
    let gs = vec![group_of("node", &[("env", "prod")], &["h:1"])];
    let yaml = json_to_yaml(&render_groups(&gs)).unwrap();
    let parsed: serde_yaml::Value = serde_yaml::from_str(&yaml).unwrap();
    assert_eq!(parsed[0]["labels"]["job"], serde_yaml::Value::String("node".to_string()));
    assert_eq!(parsed[0]["targets"][0], serde_yaml::Value::String("h:1".to_string()));
}

#[test]
fn yaml_to_json_rejects_bad_yaml_and_converts_good() {
    assert!(yaml_to_json("a: [unclosed").is_err());
    assert_eq!(yaml_to_json("k: v").unwrap(), "{\"k\":\"v\"}");
    assert!(json_to_yaml("not json").is_err());
    assert_eq!(json_to_yaml("[1,2]").unwrap(), "- 1\n- 2\n");
}
