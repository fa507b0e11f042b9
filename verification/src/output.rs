//! The output side of the format layer and the output sink: resolving a
//! destination path into stdout, a single file, or a per-job directory,
//! and fixing the pretty-print policy. Pretty printing is off only for
//! non-terminal stdout; files are always pretty.

use vstd::prelude::*;
use crate::error::{CODE_RUNTIME_ERROR, Error, SourceError};
use crate::jsondoc::{json_groups, pp_groups, render_groups, render_groups_pretty};
use crate::strutil::str_eq;
use crate::target::{GroupModel, TargetGroup};
use crate::yamlconv::{json_to_yaml, json_yaml_ok, yaml_of_json};

verus! {

/// The physical sink a destination path resolves to.
#[derive(Debug, Clone, PartialEq, Eq)]
pub enum OutputKind {
    Stdout,
    File(String),
    Directory(String),
}

/// The destination string that selects standard output.
pub open spec fn spec_stdout_path() -> Seq<char> {
    "<stdout>"@
}

/// Ghost model of a sink kind.
pub ghost enum OutputKindModel {
    Stdout,
    File(Seq<char>),
    Directory(Seq<char>),
}

impl View for OutputKind {
    type V = OutputKindModel;

    open spec fn view(&self) -> OutputKindModel {
        match self {
            OutputKind::Stdout => OutputKindModel::Stdout,
            OutputKind::File(p) => OutputKindModel::File(p@),
            OutputKind::Directory(p) => OutputKindModel::Directory(p@),
        }
    }
}

/// Ghost model of a resolved sink.
#[verifier::ext_equal]
pub ghost struct OutputModel {
    pub path: Seq<char>,
    pub kind: OutputKindModel,
    pub format: OutputFormat,
    pub pretty: bool,
}

/// The sink kind a destination path resolves to.
pub open spec fn spec_resolve_kind(path: Seq<char>, path_is_dir: bool) -> OutputKindModel {
    if path == spec_stdout_path() {
        OutputKindModel::Stdout
    } else if path_is_dir {
        OutputKindModel::Directory(path)
    } else {
        OutputKindModel::File(path)
    }
}

impl OutputKind {
    /// Resolves a destination path: the sentinel `"<stdout>"` selects
    /// standard output, an existing directory (reported by the caller
    /// through `path_is_dir`) selects per-job files, anything else a
    /// single file.
    pub fn new(path: &str, path_is_dir: bool) -> (k: OutputKind)
        ensures
            k@ == spec_resolve_kind(path@, path_is_dir),
    {
        if str_eq(path, "<stdout>") {
            OutputKind::Stdout
        } else if path_is_dir {
            OutputKind::Directory(path.to_owned())
        } else {
            OutputKind::File(path.to_owned())
        }
    }
}

/// A supported output encoding.
#[derive(Debug, Clone, Copy, PartialEq, Eq, Structural)]
pub enum OutputFormat {
    Json,
    Yaml,
}

/// The output encoding used when none is requested.
pub const DEFAULT_OUTPUT_FORMAT: OutputFormat = OutputFormat::Json;

impl OutputFormat {
    /// The stable string identifier of the encoding.
    pub fn as_str(&self) -> (r: &'static str)
        ensures
            *self is Json ==> r@ == "json"@,
            *self is Yaml ==> r@ == "yaml"@,
    {
        match self {
            OutputFormat::Json => "json",
            OutputFormat::Yaml => "yaml",
        }
    }

    /// The file extension used for generated file names.
    pub fn extension(&self) -> (r: &'static str)
        ensures
            r@ == spec_extension_of(*self),
    {
        match self {
            OutputFormat::Json => "json",
            OutputFormat::Yaml => "yml",
        }
    }
}

/// The generated-file extension of an output encoding.
pub open spec fn spec_extension_of(f: OutputFormat) -> Seq<char> {
    match f {
        OutputFormat::Json => "json"@,
        OutputFormat::Yaml => "yml"@,
    }
}

impl Default for OutputFormat {
    /// The default output encoding is JSON.
    fn default() -> (r: Self)
        ensures
            r == OutputFormat::Json,
    {
        DEFAULT_OUTPUT_FORMAT
    }
}

/// A resolved output sink: the destination path, its physical kind, the
/// encoding, and the pretty-print policy.
#[derive(Debug, Clone, PartialEq, Eq)]
pub struct Output {
    path: String,
    kind: OutputKind,
    format: OutputFormat,
    pretty: bool,
}

impl View for Output {
    type V = OutputModel;

    closed spec fn view(&self) -> OutputModel {
        OutputModel { path: self.path@, kind: self.kind@, format: self.format, pretty: self.pretty }
    }
}

/// The sink that resolving a destination path yields: stdout is pretty
/// only on an interactive terminal; files and directories are always
/// pretty.
pub open spec fn spec_resolve_output(
    path: Seq<char>,
    format: OutputFormat,
    stdout_is_terminal: bool,
    path_is_dir: bool,
) -> OutputModel {
    OutputModel {
        path: path,
        kind: spec_resolve_kind(path, path_is_dir),
        format: format,
        pretty: if path == spec_stdout_path() {
            stdout_is_terminal
        } else {
            true
        },
    }
}

impl Output {
    /// Resolves a destination path into a sink. The caller reports
    /// whether its standard output is an interactive terminal and whether
    /// the path names an existing directory; everything else is decided
    /// here.
    pub fn new(path: &str, format: OutputFormat, stdout_is_terminal: bool, path_is_dir: bool) -> (o:
        Output)
        ensures
            o@ == spec_resolve_output(path@, format, stdout_is_terminal, path_is_dir),
    {
        let kind = OutputKind::new(path, path_is_dir);
        let pretty = if str_eq(path, "<stdout>") {
            stdout_is_terminal
        } else {
            true
        };
        let o = Output { path: path.to_owned(), kind, format, pretty };
        proof {
            assert(o@ =~= spec_resolve_output(path@, format, stdout_is_terminal, path_is_dir));
        }
        o
    }

    /// Builds the sink of a derived per-job file directly: the given path
    /// with kind `File` and unconditional pretty-printing.
    pub(crate) fn for_file(path: String, format: OutputFormat) -> (o: Output)
        ensures
            o@ == (OutputModel {
                path: path@,
                kind: OutputKindModel::File(path@),
                format: format,
                pretty: true,
            }),
    {
        let kind = OutputKind::File(path.clone());
        Output { path, kind, format, pretty: true }
    }

    /// Builds the stdout sink with the given pretty policy, as a derived
    /// per-job sink copies it from the run's sink.
    pub(crate) fn for_stdout(format: OutputFormat, pretty: bool) -> (o: Output)
        ensures
            o@ == (OutputModel {
                path: spec_stdout_path(),
                kind: OutputKindModel::Stdout,
                format: format,
                pretty: pretty,
            }),
    {
        Output { path: "<stdout>".to_owned(), kind: OutputKind::Stdout, format, pretty }
    }

    /// The destination path.
    pub fn path(&self) -> (r: &String)
        ensures
            r@ == self@.path,
    {
        &self.path
    }

    /// The physical sink kind.
    pub fn kind(&self) -> (r: &OutputKind)
        ensures
            r@ == self@.kind,
    {
        &self.kind
    }

    /// The output encoding.
    pub fn format(&self) -> (r: &OutputFormat)
        ensures
            *r == self@.format,
    {
        &self.format
    }

    /// Whether output through this sink is pretty-printed.
    pub fn is_pretty(&self) -> (r: bool)
        ensures
            r == self@.pretty,
    {
        self.pretty
    }

    /// Serializes the groups for this sink: the configured format's
    /// rendering, framed with the job label and a trailing newline only
    /// when pretty-printing to stdout. JSON rendering cannot fail; YAML
    /// succeeds exactly when the rendered document transcodes, and a
    /// failure is fatal and tagged with the format.
    pub fn write(&self, job: &str, content: &Vec<TargetGroup>) -> (r: Result<String, Error>)
        ensures
            self@.format is Json ==> r is Ok,
            self@.format is Yaml ==> (r is Ok <==> json_yaml_ok(
                json_groups(content.deep_view()),
            )),
            r matches Ok(s) ==> s@ == spec_payload(self@, job@, content.deep_view()),
            r matches Err(e) ==> self@.format is Yaml && e.source is SerdeYaml && e.code == Some(
                CODE_RUNTIME_ERROR,
            ),
    {
        let body = match self.format {
            OutputFormat::Json => if self.pretty {
                render_groups_pretty(content)
            } else {
                render_groups(content)
            },
            OutputFormat::Yaml => {
                let j = render_groups(content);
                match json_to_yaml(j.as_str()) {
                    Ok(y) => y,
                    Err(m) => {
                        return Err(
                            Error::new(SourceError::SerdeYaml(m)).context(
                                "Failed to serialize to YAML",
                            ).code(CODE_RUNTIME_ERROR),
                        );
                    },
                }
            },
        };
        let to_stdout = match self.kind {
            OutputKind::Stdout => true,
            _ => false,
        };
        if self.pretty && to_stdout {
            let mut s = job.to_owned();
            s.append(":\n");
            s.append(body.as_str());
            s.append("\n");
            proof {
                reveal_strlit(":\n");
                reveal_strlit("\n");
                assert(s@ =~= spec_payload(self@, job@, content.deep_view()));
            }
            Ok(s)
        } else {
            Ok(body)
        }
    }
}

/// The exact text written for one job's groups through a sink: the
/// format's rendering of the groups, with the `<job>:` heading and a
/// trailing newline added only when pretty-printing to stdout.
pub open spec fn spec_payload(o: OutputModel, job: Seq<char>, gs: Seq<GroupModel>) -> Seq<char> {
    let body = if o.format is Json {
        if o.pretty {
            pp_groups(gs)
        } else {
            json_groups(gs)
        }
    } else {
        yaml_of_json(json_groups(gs))
    };
    if o.pretty && o.kind is Stdout {
        job + seq![':', '\n'] + body + seq!['\n']
    } else {
        body
    }
}

impl OutputKind {
    /// An exact copy of the sink kind.
    pub fn duplicate(&self) -> (r: OutputKind)
        ensures
            r@ == self@,
    {
        match self {
            OutputKind::Stdout => OutputKind::Stdout,
            OutputKind::File(p) => OutputKind::File(p.clone()),
            OutputKind::Directory(p) => OutputKind::Directory(p.clone()),
        }
    }
}

} // verus!
