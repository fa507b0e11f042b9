use pim::labels::Labels;
use pim::output::{Output, OutputFormat};
use pim::target::{TargetFile, TargetGroup};

fn labels_of(pairs: &[(&str, &str)]) -> Labels {
    let mut l = Labels::new();
    for (k, v) in pairs {
        l.insert((*k).to_string(), (*v).to_string());
    }
    l
}

fn strings_of(xs: &[&str]) -> Vec<String> {
    xs.iter().map(|x| (*x).to_string()).collect()
}

fn group_of(job: &str, pairs: &[(&str, &str)], targets: &[&str]) -> TargetGroup {
    TargetGroup::new(job, labels_of(pairs), strings_of(targets))
}

fn file_for(job: &str) -> TargetFile {
    let out = Output::new("out.json", OutputFormat::Json, false, false);
    TargetFile::new(job, &out, &OutputFormat::Json).unwrap()
}

fn endpoints(tf: &TargetFile, idx: usize) -> Vec<String> {
    tf.targets()[idx].targets().clone()
}

#[test]
fn labels_iterate_sorted_by_key() {
    let l = labels_of(&[("zeta", "1"), ("alpha", "2"), ("mid", "3")]);
    assert_eq!(l.len(), 3);
    assert_eq!(l.key_at(0), "alpha");
    assert_eq!(l.key_at(1), "mid");
    assert_eq!(l.key_at(2), "zeta");
    assert_eq!(l.value_at(0), "2");
}

#[test]
fn labels_insert_replaces_existing_value() {
    let mut l = labels_of(&[("env", "prod")]);
    l.insert("env".to_string(), "dev".to_string());
    assert_eq!(l.len(), 1);
    assert_eq!(l.get("env").map(|s| s.as_str()), Some("dev"));
}

#[test]
fn labels_get_and_contains() {
    let l = labels_of(&[("a", "1"), ("b", "2")]);
    assert!(l.contains_key("a"));
    assert!(!l.contains_key("c"));
    assert_eq!(l.get("b").map(|s| s.as_str()), Some("2"));
    assert!(l.get("c").is_none());
}

#[test]
fn group_mirrors_job_into_labels_when_absent() {
    let g = group_of("node", &[("env", "prod")], &["h:1"]);
    assert_eq!(g.jobs(), "node");
    assert_eq!(g.labels().len(), 2);
    assert_eq!(g.labels().get("job").map(|s| s.as_str()), Some("node"));
    assert_eq!(g.labels().get("env").map(|s| s.as_str()), Some("prod"));
}

#[test]
fn group_keeps_existing_job_label() {
    let g = group_of("node", &[("job", "other")], &[]);
    assert_eq!(g.jobs(), "node");
    assert_eq!(g.labels().len(), 1);
    assert_eq!(g.labels().get("job").map(|s| s.as_str()), Some("other"));
}

#[test]
fn group_from_parts_takes_job_from_labels() {
    let g = TargetGroup::from_parts(labels_of(&[("job", "api")]), strings_of(&["h:1"]));
    assert_eq!(g.jobs(), "api");
    let g2 = TargetGroup::from_parts(labels_of(&[("env", "x")]), vec![]);
    assert_eq!(g2.jobs(), "unknown");
}

#[test]
fn group_hash_depends_on_identity_only() {
    let a = group_of("node", &[("env", "prod")], &["h:1"]);
    let b = group_of("node", &[("env", "prod")], &["h:2", "h:3"]);
    assert_eq!(a.hash(), b.hash());
    let c = group_of("other", &[("env", "prod")], &["h:1"]);
    assert_ne!(a.hash(), c.hash());
}

#[test]
fn merge_idempotence_same_group_twice() {
    // Adding the same group (identical job, labels and targets) twice
    // yields the same group list as adding it once.
    let mut once = file_for("node");
    once.add_target(group_of("node", &[("env", "prod")], &["a:1", "b:2"]));
    let mut twice = file_for("node");
    twice.add_target(group_of("node", &[("env", "prod")], &["a:1", "b:2"]));
    twice.add_target(group_of("node", &[("env", "prod")], &["a:1", "b:2"]));
    assert_eq!(once.targets().len(), 1);
    assert_eq!(twice.targets().len(), 1);
    assert_eq!(endpoints(&once, 0), endpoints(&twice, 0));
    assert_eq!(endpoints(&twice, 0), strings_of(&["a:1", "b:2"]));
}

#[test]
fn merge_unions_endpoints_without_duplicates() {
    // Contributions [a,b] and [b,c] with identical identity merge to
    // [a,b,c]: first-seen order, duplicates collapsed.
    let mut tf = file_for("node");
    tf.add_target(group_of("node", &[("env", "prod")], &["a", "b"]));
    tf.add_target(group_of("node", &[("env", "prod")], &["b", "c"]));
    assert_eq!(tf.targets().len(), 1);
    assert_eq!(endpoints(&tf, 0), strings_of(&["a", "b", "c"]));
}

#[test]
fn distinct_identities_stay_separate_groups() {
    let mut tf = file_for("node");
    tf.add_target(group_of("node", &[("env", "prod")], &["a"]));
    tf.add_target(group_of("node", &[("env", "dev")], &["a"]));
    assert_eq!(tf.targets().len(), 2);
    assert_eq!(endpoints(&tf, 0), strings_of(&["a"]));
    assert_eq!(endpoints(&tf, 1), strings_of(&["a"]));
}

#[test]
fn first_insertion_keeps_duplicate_endpoints() {
    // Duplicates are permitted at first insertion; only merging removes
    // duplicates against what is already present.
    let mut tf = file_for("node");
    tf.add_target(group_of("node", &[], &["a", "a"]));
    assert_eq!(endpoints(&tf, 0), strings_of(&["a", "a"]));
}

#[test]
fn target_file_new_keeps_job_and_starts_empty() {
    let tf = file_for("api");
    assert_eq!(tf.job(), "api");
    assert!(tf.targets().is_empty());
    assert_eq!(tf.output().path(), "out.json");
}
