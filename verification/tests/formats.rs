use pim::error::{
    CODE_OPTIONS_ERROR, CODE_PERMISSION_DENIED, CODE_RUNTIME_ERROR, CODE_SUCCESS, Error,
    SourceError,
};
use pim::input::{DEFAULT_INPUT_FORMAT, InputFormat};
use pim::output::{DEFAULT_OUTPUT_FORMAT, Output, OutputFormat, OutputKind};
use pim::target::construct_filebuf;

#[test]
fn input_format_from_extension_cases() {
    assert_eq!(InputFormat::from_extension("conf/a.json"), InputFormat::Json);
    assert_eq!(InputFormat::from_extension("a.yaml"), InputFormat::Yaml);
    assert_eq!(InputFormat::from_extension("a.yml"), InputFormat::Yaml);
    assert_eq!(InputFormat::from_extension("A.JSON"), InputFormat::Json);
    assert_eq!(InputFormat::from_extension("b.YmL"), InputFormat::Yaml);
    assert_eq!(InputFormat::from_extension("noext"), InputFormat::Unknown);
    assert_eq!(InputFormat::from_extension("a.toml"), InputFormat::Unknown);
    assert_eq!(InputFormat::from_extension(".bashrc"), InputFormat::Unknown);
    assert_eq!(InputFormat::from_extension("dir/.json"), InputFormat::Unknown);
    assert_eq!(InputFormat::from_extension("dir.json/file"), InputFormat::Unknown);
    assert_eq!(InputFormat::from_extension("x.tar.yml"), InputFormat::Yaml);
    assert_eq!(InputFormat::from_extension(""), InputFormat::Unknown);
}

#[test]
fn input_format_strings_and_default() {
    assert_eq!(InputFormat::Json.as_str(), "json");
    assert_eq!(InputFormat::Yaml.as_str(), "yaml");
    assert_eq!(InputFormat::Unknown.as_str(), "unknown");
    assert_eq!(InputFormat::default(), InputFormat::Yaml);
    assert_eq!(DEFAULT_INPUT_FORMAT, InputFormat::Yaml);
}

#[test]
fn output_format_strings_and_default() {
    assert_eq!(OutputFormat::Json.as_str(), "json");
    assert_eq!(OutputFormat::Yaml.as_str(), "yaml");
    assert_eq!(OutputFormat::Json.extension(), "json");
    assert_eq!(OutputFormat::Yaml.extension(), "yml");
    assert_eq!(OutputFormat::default(), OutputFormat::Json);
    assert_eq!(DEFAULT_OUTPUT_FORMAT, OutputFormat::Json);
}

#[test]
fn output_kind_resolution() {
    assert_eq!(OutputKind::new("<stdout>", false), OutputKind::Stdout);
    assert_eq!(OutputKind::new("<stdout>", true), OutputKind::Stdout);
    assert_eq!(OutputKind::new("some/file.json", false), OutputKind::File("some/file.json".to_string()));
    assert_eq!(OutputKind::new("some/dir", true), OutputKind::Directory("some/dir".to_string()));
}

#[test]
fn output_pretty_policy() {
    let terminal = Output::new("<stdout>", OutputFormat::Json, true, false);
    assert!(terminal.is_pretty());
    let piped = Output::new("<stdout>", OutputFormat::Json, false, false);
    assert!(!piped.is_pretty());
    let file = Output::new("f.json", OutputFormat::Json, false, false);
    assert!(file.is_pretty());
    let dir = Output::new("d", OutputFormat::Yaml, false, true);
    assert!(dir.is_pretty());
    assert_eq!(dir.kind(), &OutputKind::Directory("d".to_string()));
    assert_eq!(file.path(), "f.json");
    assert_eq!(file.format(), &OutputFormat::Json);
}

#[test]
fn construct_filebuf_joins_directory_job_and_extension() {
    assert_eq!(construct_filebuf("out", "node", &OutputFormat::Json), "out/node_targets.json");
    assert_eq!(construct_filebuf("out/", "node", &OutputFormat::Yaml), "out/node_targets.yml");
    assert_eq!(construct_filebuf("", "node", &OutputFormat::Json), "node_targets.json");
}

#[test]
fn exit_codes() {
    assert_eq!(CODE_SUCCESS, 0);
    assert_eq!(CODE_RUNTIME_ERROR, 1);
    assert_eq!(CODE_OPTIONS_ERROR, 3);
    assert_eq!(CODE_PERMISSION_DENIED, 13);
}

#[test]
fn error_builder_and_message() {
    let e = Error::new(SourceError::InvalidInputSource("no jobs".to_string()));
    assert_eq!(e.code, None);
    assert!(!e.print_help);
    assert_eq!(e.message(), "Invalid input source: no jobs");
    let e = e.code(CODE_RUNTIME_ERROR);
    assert_eq!(e.code, Some(1));
    let e = e.no_code();
    assert_eq!(e.code, None);
    let e = e.print_help();
    assert!(e.print_help);
    let e = e.with_print_help(false);
    assert!(!e.print_help);
    let e = e.context("while reading input");
    assert_eq!(e.message(), "while reading input\nInvalid input source: no jobs");
    // A later non-empty context replaces the earlier one.
    let e = e.context("outer");
    assert_eq!(e.message(), "outer\nInvalid input source: no jobs");
    // An empty context prefixes a line break to the prior one.
    let e = e.context("");
    assert_eq!(e.message(), "\nouter\nInvalid input source: no jobs");
}

#[test]
fn parse_error_classification() {
    assert!(SourceError::SerdeJson("x".to_string()).is_parse_error());
    assert!(SourceError::SerdeYaml("x".to_string()).is_parse_error());
    assert!(!SourceError::Io("x".to_string()).is_parse_error());
    assert!(!SourceError::Msg("x".to_string()).is_parse_error());
    assert!(!SourceError::InvalidInputSource("x".to_string()).is_parse_error());
}

#[test]
fn source_error_messages_per_variant() {
    assert_eq!(SourceError::Io("broken".to_string()).message(), "broken");
    assert_eq!(SourceError::SerdeJson("bad json".to_string()).message(), "bad json");
    assert_eq!(SourceError::SerdeYaml("bad yaml".to_string()).message(), "bad yaml");
    assert_eq!(
        SourceError::UnsupportedInputFormat("unknown".to_string()).message(),
        "Unsupported input format: unknown"
    );
    assert_eq!(
        SourceError::UnsupportedOutputFormat("xml".to_string()).message(),
        "Unsupported output format: xml"
    );
    assert_eq!(
        SourceError::InvalidInputSource("empty".to_string()).message(),
        "Invalid input source: empty"
    );
    assert_eq!(SourceError::Msg("plain".to_string()).message(), "plain");
}
