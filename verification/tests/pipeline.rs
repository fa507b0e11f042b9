use pim::error::SourceError;
use pim::labels::Labels;
use pim::output::{Output, OutputFormat, OutputKind};
use pim::source::{Source, expand_sources};
use pim::target::TargetFiles;

fn source_of(jobs: &[&str], pairs: &[(&str, &str)], targets: &[&str]) -> Source {
    let mut s = Source::default();
    *s.jobs_mut() = jobs.iter().map(|x| (*x).to_string()).collect();
    let mut l = Labels::new();
    for (k, v) in pairs {
        l.insert((*k).to_string(), (*v).to_string());
    }
    *s.labels_mut() = l;
    *s.targets_mut() = targets.iter().map(|x| (*x).to_string()).collect();
    s
}

#[test]
fn source_accessors_round() {
    let s = source_of(&["a"], &[("k", "v")], &["t:1"]);
    assert_eq!(s.jobs(), &vec!["a".to_string()]);
    assert_eq!(s.labels().get("k").map(|x| x.as_str()), Some("v"));
    assert_eq!(s.targets(), &vec!["t:1".to_string()]);
}

#[test]
fn job_fan_out_two_files() {
    // jobs ["x","y"] with one label set and one endpoint produce exactly
    // two files, each holding one group with the mirrored job label.
    let out = Output::new("<stdout>", OutputFormat::Json, false, false);
    let mut reg = TargetFiles::default();
    let s = source_of(&["x", "y"], &[("env", "prod")], &["h1:9100"]);
    s.into_targets(&out, &OutputFormat::Json, &mut reg).unwrap();
    assert_eq!(reg.len(), 2);
    assert!(reg.has_job("x"));
    assert!(reg.has_job("y"));
    for job in ["x", "y"] {
        let tf = reg.target_file(job).unwrap();
        assert_eq!(tf.targets().len(), 1);
        let g = &tf.targets()[0];
        assert_eq!(g.labels().len(), 2);
        assert_eq!(g.labels().get("env").map(|x| x.as_str()), Some("prod"));
        assert_eq!(g.labels().get("job").map(|x| x.as_str()), Some(job));
        assert_eq!(g.targets(), &vec!["h1:9100".to_string()]);
    }
}

#[test]
fn empty_job_list_is_rejected() {
    let out = Output::new("<stdout>", OutputFormat::Json, false, false);
    let mut reg = TargetFiles::default();
    let s = source_of(&[], &[("env", "prod")], &["h1:9100"]);
    let e = s.into_targets(&out, &OutputFormat::Json, &mut reg).unwrap_err();
    assert!(matches!(e.source, SourceError::InvalidInputSource(_)));
    assert_eq!(e.code, Some(1));
    assert_eq!(e.message(), "Invalid input source: Source must have at least one job");
    assert_eq!(reg.len(), 0);
    let w = reg.write_all().unwrap();
    assert!(w.is_empty());
}

#[test]
fn empty_job_name_is_rejected() {
    let out = Output::new("<stdout>", OutputFormat::Json, false, false);
    let mut reg = TargetFiles::default();
    let s = source_of(&["ok", ""], &[], &["h:1"]);
    let e = s.into_targets(&out, &OutputFormat::Json, &mut reg).unwrap_err();
    assert!(matches!(e.source, SourceError::InvalidInputSource(_)));
    assert_eq!(e.message(), "Invalid input source: Jobs in source cannot be empty");
    // The job before the first empty name has already been applied.
    assert_eq!(reg.len(), 1);
    assert!(reg.has_job("ok"));
}

#[test]
fn directory_fan_out_names_per_job_files() {
    // With a directory destination, each job gets its own file named
    // <job>_targets.<extension>, holding only that job's groups.
    let out = Output::new("outdir", OutputFormat::Json, false, true);
    let mut reg = TargetFiles::default();
    let s1 = source_of(&["alpha"], &[("env", "a")], &["h1:1"]);
    let s2 = source_of(&["beta"], &[("env", "b")], &["h2:2"]);
    s1.into_targets(&out, &OutputFormat::Json, &mut reg).unwrap();
    s2.into_targets(&out, &OutputFormat::Json, &mut reg).unwrap();
    assert_eq!(reg.len(), 2);
    let items = reg.write_all().unwrap();
    assert_eq!(items.len(), 2);
    assert_eq!(items[0].kind, OutputKind::File("outdir/alpha_targets.json".to_string()));
    assert_eq!(items[1].kind, OutputKind::File("outdir/beta_targets.json".to_string()));
    assert!(items[0].data.contains("\"env\": \"a\""));
    assert!(!items[0].data.contains("\"env\": \"b\""));
    assert!(items[1].data.contains("\"env\": \"b\""));
    assert!(!items[1].data.contains("h1:1"));
}

#[test]
fn directory_fan_out_yaml_extension() {
    let out = Output::new("outdir", OutputFormat::Yaml, false, true);
    let mut reg = TargetFiles::default();
    let s = source_of(&["alpha"], &[], &["h:1"]);
    s.into_targets(&out, &OutputFormat::Yaml, &mut reg).unwrap();
    let items = reg.write_all().unwrap();
    assert_eq!(items.len(), 1);
    assert_eq!(items[0].kind, OutputKind::File("outdir/alpha_targets.yml".to_string()));
}

#[test]
fn compact_stdout_scenario() {
    // Non-terminal stdout with JSON yields exactly the compact one-line
    // document.
    let out = Output::new("<stdout>", OutputFormat::Json, false, false);
    let mut reg = TargetFiles::default();
    let s = source_of(&["node"], &[("env", "prod")], &["10.0.0.1:9100"]);
    s.into_targets(&out, &OutputFormat::Json, &mut reg).unwrap();
    let items = reg.write_all().unwrap();
    assert_eq!(items.len(), 1);
    assert_eq!(items[0].kind, OutputKind::Stdout);
    assert_eq!(
        items[0].data,
        "[{\"labels\":{\"env\":\"prod\",\"job\":\"node\"},\"targets\":[\"10.0.0.1:9100\"]}]"
    );
}

#[test]
fn pretty_stdout_frames_with_job_label() {
    let out = Output::new("<stdout>", OutputFormat::Json, true, false);
    let mut reg = TargetFiles::default();
    let s = source_of(&["node"], &[], &["h:1"]);
    s.into_targets(&out, &OutputFormat::Json, &mut reg).unwrap();
    let items = reg.write_all().unwrap();
    assert!(items[0].data.starts_with("node:\n["));
    assert!(items[0].data.ends_with("]\n"));
}

#[test]
fn yaml_stdout_payload_is_yaml() {
    let out = Output::new("<stdout>", OutputFormat::Yaml, false, false);
    let mut reg = TargetFiles::default();
    let s = source_of(&["node"], &[("env", "prod")], &["10.0.0.1:9100"]);
    s.into_targets(&out, &OutputFormat::Yaml, &mut reg).unwrap();
    let items = reg.write_all().unwrap();
    assert_eq!(items.len(), 1);
    let parsed: serde_yaml::Value = serde_yaml::from_str(&items[0].data).unwrap();
    assert_eq!(parsed[0]["labels"]["env"], serde_yaml::Value::String("prod".to_string()));
    assert_eq!(parsed[0]["labels"]["job"], serde_yaml::Value::String("node".to_string()));
    assert_eq!(parsed[0]["targets"][0], serde_yaml::Value::String("10.0.0.1:9100".to_string()));
}

#[test]
fn repeated_sources_merge_across_documents() {
    let out = Output::new("<stdout>", OutputFormat::Json, false, false);
    let mut reg = TargetFiles::default();
    let s1 = source_of(&["node"], &[("env", "prod")], &["a:1", "b:2"]);
    let s2 = source_of(&["node"], &[("env", "prod")], &["b:2", "c:3"]);
    expand_sources(&vec![s1, s2], &out, &OutputFormat::Json, &mut reg).unwrap();
    assert_eq!(reg.len(), 1);
    let tf = reg.target_file("node").unwrap();
    assert_eq!(tf.targets().len(), 1);
    assert_eq!(
        tf.targets()[0].targets(),
        &vec!["a:1".to_string(), "b:2".to_string(), "c:3".to_string()]
    );
}

#[test]
fn batch_aborts_on_first_invalid_source() {
    let out = Output::new("<stdout>", OutputFormat::Json, false, false);
    let mut reg = TargetFiles::default();
    let good = source_of(&["a"], &[], &["h:1"]);
    let bad = source_of(&[], &[], &[]);
    let tail = source_of(&["z"], &[], &["h:2"]);
    let e = expand_sources(&vec![good, bad, tail], &out, &OutputFormat::Json, &mut reg)
        .unwrap_err();
    assert!(matches!(e.source, SourceError::InvalidInputSource(_)));
    assert!(reg.has_job("a"));
    assert!(!reg.has_job("z"));
}

#[test]
fn registry_iterates_in_job_order() {
    let out = Output::new("<stdout>", OutputFormat::Json, false, false);
    let mut reg = TargetFiles::default();
    for job in ["zeta", "alpha", "mid"] {
        let s = source_of(&[job], &[], &["h:1"]);
        s.into_targets(&out, &OutputFormat::Json, &mut reg).unwrap();
    }
    assert_eq!(reg.len(), 3);
    assert_eq!(reg.file_at(0).job(), "alpha");
    assert_eq!(reg.file_at(1).job(), "mid");
    assert_eq!(reg.file_at(2).job(), "zeta");
}

#[test]
fn target_file_mut_gives_access_and_none_for_missing() {
    let out = Output::new("<stdout>", OutputFormat::Json, false, false);
    let mut reg = TargetFiles::default();
    let s = source_of(&["a"], &[], &["h:1"]);
    s.into_targets(&out, &OutputFormat::Json, &mut reg).unwrap();
    assert!(reg.target_file_mut("missing").is_none());
    let tf = reg.target_file_mut("a").unwrap();
    assert_eq!(tf.job(), "a");
}
