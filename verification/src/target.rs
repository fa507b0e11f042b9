//! The target model: `TargetGroup` (one label set plus its endpoints),
//! `TargetFile` (one job's accumulated, identity-merged groups and its
//! resolved sink), and `TargetFiles` (the job-keyed registry of one run).

use vstd::prelude::*;
use crate::error::Error;
use crate::labels::{
    Labels, has_key, has_pair, labels_eq, sorted_label_pairs, spec_mirror_labels,
};
use crate::output::{
    Output, OutputFormat, OutputKind, OutputKindModel, OutputModel, spec_extension_of,
    spec_payload, spec_stdout_path,
};
use crate::strutil::{
    contains_str, lemma_lex_strict_order, lex_lt, str_eq, str_lt,
};

verus! {

/// Ghost model of one target group: the job it is scoped to, its label
/// pairs in key order, and its endpoints in order.
#[verifier::ext_equal]
pub ghost struct GroupModel {
    pub job: Seq<char>,
    pub labels: Seq<(Seq<char>, Seq<char>)>,
    pub targets: Seq<Seq<char>>,
}

/// A group is well formed when its labels are sorted by key and contain
/// the key `"job"`.
pub open spec fn group_model_wf(g: GroupModel) -> bool {
    sorted_label_pairs(g.labels) && has_key(g.labels, "job"@)
}

/// Two groups are the same group exactly when job and full label mapping
/// coincide; endpoints do not participate in identity.
pub open spec fn same_identity(a: GroupModel, b: GroupModel) -> bool {
    a.job == b.job && a.labels == b.labels
}

/// Union-merge of endpoint lists, scanned from position `i` of `add`:
/// each endpoint of `add` not already present is appended, in `add`'s
/// order.
pub open spec fn merge_from(ts: Seq<Seq<char>>, add: Seq<Seq<char>>, i: int) -> Seq<Seq<char>>
    decreases add.len() - i,
{
    if i < 0 || i >= add.len() {
        ts
    } else {
        let ts2 = if ts.contains(add[i]) {
            ts
        } else {
            ts.push(add[i])
        };
        merge_from(ts2, add, i + 1)
    }
}

/// Union-merge of a full endpoint list into an existing one.
pub open spec fn merge_targets(ts: Seq<Seq<char>>, add: Seq<Seq<char>>) -> Seq<Seq<char>> {
    merge_from(ts, add, 0)
}

/// The group that results from merging candidate `c`'s endpoints into
/// `g`; identity is untouched.
pub open spec fn merged_group(g: GroupModel, c: GroupModel) -> GroupModel {
    GroupModel { targets: merge_targets(g.targets, c.targets), ..g }
}

/// The first position at or after `i` whose group has `c`'s identity, or
/// the length when none has.
pub open spec fn first_match_from(gs: Seq<GroupModel>, c: GroupModel, i: int) -> int
    decreases gs.len() - i,
{
    if i < 0 || i >= gs.len() {
        gs.len() as int
    } else if same_identity(gs[i], c) {
        i
    } else {
        first_match_from(gs, c, i + 1)
    }
}

/// Adding a candidate group to a group list: merged into the first group
/// of equal identity, or appended when none matches.
pub open spec fn add_group(gs: Seq<GroupModel>, c: GroupModel) -> Seq<GroupModel> {
    let i = first_match_from(gs, c, 0);
    if i < gs.len() {
        gs.update(i, merged_group(gs[i], c))
    } else {
        gs.push(c)
    }
}

/// One label set and its associated endpoints, scoped to one job.
#[derive(Debug, Clone, PartialEq, Eq)]
pub struct TargetGroup {
    job: String,
    labels: Labels,
    targets: Vec<String>,
}

impl View for TargetGroup {
    type V = GroupModel;

    closed spec fn view(&self) -> GroupModel {
        GroupModel { job: self.job@, labels: self.labels@, targets: self.targets.deep_view() }
    }
}

impl DeepView for TargetGroup {
    type V = GroupModel;

    open spec fn deep_view(&self) -> GroupModel {
        self.view()
    }
}

impl TargetGroup {
    /// The group is well formed.
    pub open spec fn wf(&self) -> bool {
        group_model_wf(self@)
    }

    /// A new group for `job`: the given labels gain `"job"` mapped to the
    /// job name when that exact key is absent; the endpoints are taken as
    /// given, duplicates permitted at this stage.
    pub fn new(job: &str, labels: Labels, targets: Vec<String>) -> (g: TargetGroup)
        requires
            labels.wf(),
        ensures
            g@ == (GroupModel {
                job: job@,
                labels: spec_mirror_labels(labels@, job@),
                targets: targets.deep_view(),
            }),
            g.wf(),
    {
        let mut labels = labels;
        let ghost l0 = labels@;
        let ghost t0 = targets.deep_view();
        if !labels.contains_key("job") {
            labels.insert("job".to_owned(), job.to_owned());
        }
        let g = TargetGroup { job: job.to_owned(), labels, targets };
        proof {
            assert(g@ =~= GroupModel { job: job@, labels: spec_mirror_labels(l0, job@), targets: t0 });
            if !has_key(l0, "job"@) {
                assert(has_pair(g@.labels, "job"@, job@));
                let w = choose|w: int| 0 <= w < g@.labels.len() && g@.labels[w] == ("job"@, job@);
                assert(g@.labels[w].0 == "job"@);
            }
        }
        g
    }

    /// The job the group is scoped to.
    pub fn jobs(&self) -> (r: &String)
        ensures
            r@ == self@.job,
    {
        &self.job
    }

    /// The group's label set.
    pub fn labels(&self) -> (r: &Labels)
        ensures
            r@ == self@.labels,
    {
        &self.labels
    }

    /// The group's endpoints, in order.
    pub fn targets(&self) -> (r: &Vec<String>)
        ensures
            r.deep_view() == self@.targets,
    {
        &self.targets
    }

    /// An exact copy of the group.
    pub fn duplicate(&self) -> (r: TargetGroup)
        ensures
            r@ == self@,
    {
        let mut targets: Vec<String> = Vec::new();
        let mut i: usize = 0;
        while i < self.targets.len()
            invariant
                0 <= i <= self.targets@.len(),
                targets@.len() == i,
                forall|j: int| 0 <= j < i ==> targets@[j]@ == self.targets@[j]@,
            decreases self.targets@.len() - i,
        {
            targets.push(self.targets[i].clone());
            i += 1;
        }
        let r = TargetGroup {
            job: self.job.clone(),
            labels: self.labels.duplicate(),
            targets,
        };
        proof {
            assert(r.targets.deep_view() =~= self.targets.deep_view());
            assert(r@ =~= self@);
        }
        r
    }

    /// Union-merges the candidate's endpoints into this group: each one
    /// not already present (exact string match) is appended in candidate
    /// order.
    fn absorb(&mut self, other: &TargetGroup)
        ensures
            final(self)@ == merged_group(old(self)@, other@),
    {
        let ghost oldm = self@;
        let ghost add = other@.targets;
        let mut k: usize = 0;
        loop
            invariant
                self@.job == oldm.job,
                self@.labels == oldm.labels,
                0 <= k <= other.targets@.len(),
                add == other@.targets,
                add.len() == other.targets@.len(),
                merge_from(oldm.targets, add, 0) == merge_from(self@.targets, add, k as int),
            ensures
                self@.job == oldm.job,
                self@.labels == oldm.labels,
                self@.targets == merge_from(oldm.targets, add, 0),
            decreases other.targets@.len() - k,
        {
            if k == other.targets.len() {
                break;
            }
            proof {
                assert(add[k as int] == other.targets@[k as int]@);
            }
            if !contains_str(&self.targets, other.targets[k].as_str()) {
                proof {
                    lemma_deep_contains(self.targets, add[k as int]);
                    assert(!self@.targets.contains(add[k as int]));
                }
                let ghost before = self@.targets;
                self.targets.push(other.targets[k].clone());
                proof {
                    assert(self@.targets =~= before.push(add[k as int]));
                }
            } else {
                proof {
                    lemma_deep_contains(self.targets, add[k as int]);
                    assert(self@.targets.contains(add[k as int]));
                }
            }
            k += 1;
        }
        proof {
            assert(self@ =~= merged_group(oldm, GroupModel { targets: add, ..oldm }));
        }
    }
}

/// Membership in the deep view of a string vector is existence of an
/// equal-viewed element.
proof fn lemma_deep_contains(v: Vec<String>, x: Seq<char>)
    ensures
        v.deep_view().contains(x) <==> exists|j: int| 0 <= j < v@.len() && v@[j]@ == x,
{
    if v.deep_view().contains(x) {
        let m = choose|m: int| 0 <= m < v.deep_view().len() && v.deep_view()[m] == x;
        assert(v@[m]@ == x);
    }
    if exists|j: int| 0 <= j < v@.len() && v@[j]@ == x {
        let j = choose|j: int| 0 <= j < v@.len() && v@[j]@ == x;
        assert(v.deep_view()[j] == x);
    }
}

/// The job a decoded group belongs to: the value of its `"job"` label,
/// or `"unknown"` when that label is absent.
pub open spec fn spec_job_of(ps: Seq<(Seq<char>, Seq<char>)>) -> Seq<char> {
    match crate::labels::spec_lookup(ps, "job"@) {
        Option::Some(v) => v,
        Option::None => "unknown"@,
    }
}

impl TargetGroup {
    /// A group rebuilt from a decoded document: labels and endpoints as
    /// given, the job taken from `labels["job"]`, `"unknown"` when that
    /// label is absent.
    pub fn from_parts(labels: Labels, targets: Vec<String>) -> (g: TargetGroup)
        ensures
            g@ == (GroupModel {
                job: spec_job_of(labels@),
                labels: labels@,
                targets: targets.deep_view(),
            }),
    {
        let job = match labels.get("job") {
            Some(v) => v.clone(),
            None => "unknown".to_owned(),
        };
        let g = TargetGroup { job, labels, targets };
        proof {
            assert(g@ =~= GroupModel {
                job: spec_job_of(g.labels@),
                labels: g.labels@,
                targets: g.targets.deep_view(),
            });
        }
        g
    }
}

/// Identity equality of two groups: same job and same label pairs.
pub fn group_identity_eq(a: &TargetGroup, b: &TargetGroup) -> (r: bool)
    ensures
        r == same_identity(a@, b@),
{
    str_eq(a.jobs().as_str(), b.jobs().as_str()) && labels_eq(a.labels(), b.labels())
}

/// One FNV-1a fold step over the 64-bit extension of `b`.
pub open spec fn fnv_step(h: u64, b: u32) -> u64 {
    vstd::wrapping::u64_specs::wrapping_mul(h ^ (b as u64), 0x100000001b3u64)
}

/// A fold step marking a boundary between hashed fields.
pub open spec fn fnv_sep(h: u64) -> u64 {
    fnv_step(h, 0xFFFFFFFFu32)
}

/// Folds the characters of `s` from position `i` on into `h`.
pub open spec fn fnv_chars_from(h: u64, s: Seq<char>, i: int) -> u64
    decreases s.len() - i,
{
    if i < 0 || i >= s.len() {
        h
    } else {
        fnv_chars_from(fnv_step(h, s[i] as u32), s, i + 1)
    }
}

/// Folds one label pair, each field closed with a separator.
pub open spec fn fnv_pair(h: u64, p: (Seq<char>, Seq<char>)) -> u64 {
    fnv_sep(fnv_chars_from(fnv_sep(fnv_chars_from(h, p.0, 0)), p.1, 0))
}

/// Folds the label pairs of `s` from position `i` on into `h`.
pub open spec fn fnv_pairs_from(h: u64, s: Seq<(Seq<char>, Seq<char>)>, i: int) -> u64
    decreases s.len() - i,
{
    if i < 0 || i >= s.len() {
        h
    } else {
        fnv_pairs_from(fnv_pair(h, s[i]), s, i + 1)
    }
}

/// The structural identity hash of a group: an FNV-1a fold over its job
/// and its label pairs. Endpoints do not participate.
pub open spec fn spec_group_hash(g: GroupModel) -> u64 {
    fnv_pairs_from(fnv_sep(fnv_chars_from(0xcbf29ce484222325u64, g.job, 0)), g.labels, 0)
}

/// Groups with the same identity hash alike: the hash reads only job and
/// labels.
pub proof fn lemma_hash_of_identity(a: GroupModel, b: GroupModel)
    requires
        same_identity(a, b),
    ensures
        spec_group_hash(a) == spec_group_hash(b),
{
}

/// One executable FNV-1a step.
fn fnv_step_exec(h: u64, b: u32) -> (r: u64)
    ensures
        r == fnv_step(h, b),
{
    (h ^ (b as u64)).wrapping_mul(0x100000001b3u64)
}

/// Folds a whole string slice into the hash state.
fn fnv_str(h0: u64, s: &str) -> (r: u64)
    ensures
        r == fnv_chars_from(h0, s@, 0),
{
    let n = s.unicode_len();
    let mut h = h0;
    let mut i: usize = 0;
    while i < n
        invariant
            n == s@.len(),
            0 <= i <= n,
            fnv_chars_from(h0, s@, 0) == fnv_chars_from(h, s@, i as int),
        decreases n - i,
    {
        h = fnv_step_exec(h, s.get_char(i) as u32);
        i += 1;
    }
    h
}

impl TargetGroup {
    /// The structural identity hash over the group's job and label set.
    pub fn hash(&self) -> (r: u64)
        ensures
            r == spec_group_hash(self@),
    {
        let mut h = fnv_str(0xcbf29ce484222325u64, self.job.as_str());
        h = fnv_step_exec(h, 0xFFFFFFFFu32);
        let n = self.labels.len();
        let mut i: usize = 0;
        while i < n
            invariant
                n == self@.labels.len(),
                0 <= i <= n,
                spec_group_hash(self@) == fnv_pairs_from(h, self@.labels, i as int),
            decreases n - i,
        {
            let ghost hin = h;
            let h1 = fnv_str(h, self.labels.key_at(i).as_str());
            let h2 = fnv_step_exec(h1, 0xFFFFFFFFu32);
            let h3 = fnv_str(h2, self.labels.value_at(i).as_str());
            let h4 = fnv_step_exec(h3, 0xFFFFFFFFu32);
            proof {
                assert(h4 == fnv_pair(hin, self@.labels[i as int]));
            }
            h = h4;
            i += 1;
        }
        h
    }
}

/// Ghost model of one job's target file: the job, its resolved sink, and
/// its accumulated groups.
#[verifier::ext_equal]
pub ghost struct FileModel {
    pub job: Seq<char>,
    pub output: OutputModel,
    pub groups: Seq<GroupModel>,
}

/// A file is well formed when no two groups share identity and each group
/// is well formed.
pub open spec fn file_model_wf(f: FileModel) -> bool {
    &&& forall|i: int, j: int|
        0 <= i < j < f.groups.len() ==> !same_identity(f.groups[i], f.groups[j])
    &&& forall|i: int| 0 <= i < f.groups.len() ==> group_model_wf(#[trigger] f.groups[i])
}

/// The generated file name for a job: `<job>_targets.<extension>`.
pub open spec fn spec_target_file_name(job: Seq<char>, format: OutputFormat) -> Seq<char> {
    job + "_targets."@ + spec_extension_of(format)
}

/// Joining a directory path and a file name with `/`, adding no second
/// separator when the directory already ends with one.
pub open spec fn spec_join_path(dir: Seq<char>, name: Seq<char>) -> Seq<char> {
    if dir.len() == 0 {
        name
    } else if dir[dir.len() - 1] == '/' {
        dir + name
    } else {
        dir + "/"@ + name
    }
}

/// The sink of one job's file, derived from the run's sink: stdout stays
/// stdout with the run's pretty policy; a file destination is used as is;
/// a directory destination becomes the per-job file inside it; files are
/// always pretty.
pub open spec fn spec_derive_output(
    parent: OutputModel,
    job: Seq<char>,
    format: OutputFormat,
) -> OutputModel {
    match parent.kind {
        OutputKindModel::Stdout => OutputModel {
            path: spec_stdout_path(),
            kind: OutputKindModel::Stdout,
            format: format,
            pretty: parent.pretty,
        },
        OutputKindModel::File(p) => OutputModel {
            path: p,
            kind: OutputKindModel::File(p),
            format: format,
            pretty: true,
        },
        OutputKindModel::Directory(d) => OutputModel {
            path: spec_join_path(d, spec_target_file_name(job, format)),
            kind: OutputKindModel::File(spec_join_path(d, spec_target_file_name(job, format))),
            format: format,
            pretty: true,
        },
    }
}

/// A fresh file for `job`: no groups yet, sink derived from the run's.
pub open spec fn spec_new_file(
    job: Seq<char>,
    parent: OutputModel,
    format: OutputFormat,
) -> FileModel {
    FileModel {
        job: job,
        output: spec_derive_output(parent, job, format),
        groups: Seq::<GroupModel>::empty(),
    }
}

/// The output file path for `job` inside the directory `dir`:
/// `<dir>/<job>_targets.<extension>`.
pub fn construct_filebuf(dir: &str, job: &str, format: &OutputFormat) -> (r: String)
    ensures
        r@ == spec_join_path(dir@, spec_target_file_name(job@, *format)),
{
    let mut name = job.to_owned();
    name.append("_targets.");
    name.append(format.extension());
    proof {
        assert(name@ =~= spec_target_file_name(job@, *format));
    }
    let dlen = dir.unicode_len();
    if dlen == 0 {
        return name;
    }
    let mut out = dir.to_owned();
    if dir.get_char(dlen - 1) != '/' {
        out.append("/");
    }
    out.append(name.as_str());
    proof {
        assert(out@ =~= spec_join_path(dir@, spec_target_file_name(job@, *format)));
    }
    out
}

/// The accumulated, mergeable state for exactly one job: its name, its
/// resolved sink, and its groups, unique by identity.
#[derive(Debug, Clone, PartialEq, Eq)]
pub struct TargetFile {
    job: String,
    output: Output,
    targets: Vec<TargetGroup>,
}

impl View for TargetFile {
    type V = FileModel;

    closed spec fn view(&self) -> FileModel {
        FileModel { job: self.job@, output: self.output@, groups: self.targets.deep_view() }
    }
}

impl DeepView for TargetFile {
    type V = FileModel;

    open spec fn deep_view(&self) -> FileModel {
        self.view()
    }
}

impl TargetFile {
    /// The file is well formed.
    pub open spec fn wf(&self) -> bool {
        file_model_wf(self@)
    }

    /// A fresh file for `job`, its sink derived from the run's sink and
    /// the requested format. Resolution is pure, so this always succeeds;
    /// the `Result` mirrors the fallible construction at the caller.
    pub fn new(job: &str, output: &Output, format: &OutputFormat) -> (r: Result<TargetFile, Error>)
        ensures
            r is Ok,
            r->Ok_0@ == spec_new_file(job@, output@, *format),
            r->Ok_0.wf(),
    {
        let out = match output.kind() {
            OutputKind::Stdout => Output::for_stdout(*format, output.is_pretty()),
            OutputKind::File(p) => Output::for_file(p.clone(), *format),
            OutputKind::Directory(p) => Output::for_file(
                construct_filebuf(p.as_str(), job, format),
                *format,
            ),
        };
        let tf = TargetFile { job: job.to_owned(), output: out, targets: Vec::new() };
        proof {
            assert(tf.targets.deep_view() =~= Seq::<GroupModel>::empty());
            assert(tf@ =~= spec_new_file(job@, output@, *format));
        }
        Ok(tf)
    }

    /// The owning job name.
    pub fn job(&self) -> (r: &String)
        ensures
            r@ == self@.job,
    {
        &self.job
    }

    /// The file's resolved sink.
    pub fn output(&self) -> (r: &Output)
        ensures
            r@ == self@.output,
    {
        &self.output
    }

    /// The accumulated groups, in insertion/merge order.
    pub fn targets(&self) -> (r: &Vec<TargetGroup>)
        ensures
            r.deep_view() == self@.groups,
    {
        &self.targets
    }

    /// Adds a contribution: merged into the first existing group with the
    /// same identity (its missing endpoints appended in candidate order),
    /// or appended as a new group when none matches.
    pub fn add_target(&mut self, target: TargetGroup)
        ensures
            final(self)@.job == old(self)@.job,
            final(self)@.output == old(self)@.output,
            final(self)@.groups == add_group(old(self)@.groups, target@),
            old(self).wf() && group_model_wf(target@) ==> final(self).wf(),
    {
        let ghost oldgs = self@.groups;
        let ghost c = target@;
        let mut i: usize = 0;
        loop
            invariant
                *self == *old(self),
                0 <= i <= self.targets@.len(),
                self.targets@.len() == self@.groups.len(),
                c == target@,
                forall|j: int| 0 <= j < i ==> !same_identity(self@.groups[j], c),
                first_match_from(self@.groups, c, 0) == first_match_from(self@.groups, c, i as int),
            ensures
                *self == *old(self),
                0 <= i <= self@.groups.len(),
                i < self@.groups.len() ==> same_identity(self@.groups[i as int], c)
                    && first_match_from(self@.groups, c, 0) == i,
                i == self@.groups.len() ==> first_match_from(self@.groups, c, 0)
                    == self@.groups.len(),
            decreases self.targets@.len() - i,
        {
            if i == self.targets.len() {
                break;
            }
            proof {
                assert(self.targets@[i as int].deep_view() == self@.groups[i as int]);
            }
            if group_identity_eq(&self.targets[i], &target) {
                break;
            }
            i += 1;
        }
        if i < self.targets.len() {
            proof {
                assert(self.targets@[i as int].deep_view() == oldgs[i as int]);
            }
            let g = &mut self.targets[i];
            g.absorb(&target);
            proof {
                assert(self.targets.deep_view() =~= oldgs.update(
                    i as int,
                    merged_group(oldgs[i as int], c),
                ));
                assert(final(self)@.groups == add_group(oldgs, c));
            }
        } else {
            self.targets.push(target);
            proof {
                assert(self.targets.deep_view() =~= oldgs.push(c));
            }
        }
        proof {
            if old(self).wf() && group_model_wf(c) {
                lemma_add_group_preserves_wf(oldgs, c);
            }
        }
    }

    /// Serializes this file's groups for its sink; the exact text is
    /// pinned by the sink's payload function. JSON cannot fail; YAML
    /// succeeds exactly when the rendered document transcodes, and a
    /// failure is fatal.
    pub fn write(&self) -> (r: Result<String, Error>)
        ensures
            self@.output.format is Json ==> r is Ok,
            self@.output.format is Yaml ==> (r is Ok <==> crate::yamlconv::json_yaml_ok(
                crate::jsondoc::json_groups(self@.groups),
            )),
            r matches Ok(s) ==> s@ == spec_payload(self@.output, self@.job, self@.groups),
            r matches Err(e) ==> self@.output.format is Yaml && e.source is SerdeYaml && e.code
                == Some(crate::error::CODE_RUNTIME_ERROR),
    {
        self.output.write(self.job.as_str(), &self.targets)
    }
}

/// The registry's files are strictly sorted by job name.
pub open spec fn sorted_files(s: Seq<FileModel>) -> bool {
    forall|i: int, j: int| 0 <= i < j < s.len() ==> lex_lt(s[i].job, s[j].job)
}

/// Some file of `s` is keyed by `job`.
pub open spec fn has_file_for(s: Seq<FileModel>, job: Seq<char>) -> bool {
    exists|i: int| 0 <= i < s.len() && s[i].job == job
}

/// Sorted insertion of a file keyed by its job, replacing an existing
/// entry with the same job.
pub open spec fn spec_insert_file(s: Seq<FileModel>, f: FileModel) -> Seq<FileModel>
    decreases s.len(),
{
    if s.len() == 0 {
        seq![f]
    } else if lex_lt(s[0].job, f.job) {
        seq![s[0]] + spec_insert_file(s.drop_first(), f)
    } else if s[0].job == f.job {
        seq![f] + s.drop_first()
    } else {
        seq![f] + s
    }
}

/// Where the insertion position is known, `spec_insert_file` is an update
/// (job present there) or a sequence insertion (job absent).
pub proof fn lemma_spec_insert_file_at(s: Seq<FileModel>, f: FileModel, pos: int)
    requires
        sorted_files(s),
        0 <= pos <= s.len(),
        forall|j: int| 0 <= j < pos ==> lex_lt(s[j].job, f.job),
        pos < s.len() ==> !lex_lt(s[pos].job, f.job),
    ensures
        pos < s.len() && s[pos].job == f.job ==> spec_insert_file(s, f) == s.update(pos, f),
        !(pos < s.len() && s[pos].job == f.job) ==> spec_insert_file(s, f) == s.insert(pos, f),
    decreases s.len(),
{
    if s.len() == 0 {
        assert(spec_insert_file(s, f) =~= s.insert(0, f));
    } else if pos == 0 {
        if s[0].job == f.job {
            assert(spec_insert_file(s, f) =~= s.update(0, f));
        } else {
            assert(spec_insert_file(s, f) =~= s.insert(0, f));
        }
    } else {
        let t = s.drop_first();
        assert(lex_lt(s[0].job, f.job));
        assert forall|i2: int, j2: int| 0 <= i2 < j2 < t.len() implies lex_lt(
            t[i2].job,
            t[j2].job,
        ) by {
            assert(t[i2] == s[i2 + 1]);
            assert(t[j2] == s[j2 + 1]);
        }
        lemma_spec_insert_file_at(t, f, pos - 1);
        if pos < s.len() && s[pos].job == f.job {
            assert(spec_insert_file(s, f) =~= s.update(pos, f));
        } else {
            assert(spec_insert_file(s, f) =~= s.insert(pos, f));
        }
    }
}

/// Adds a group to the first file keyed by `job`; files with other jobs
/// are untouched, and a missing job leaves the registry unchanged.
pub open spec fn spec_add_to_job(s: Seq<FileModel>, job: Seq<char>, g: GroupModel) -> Seq<
    FileModel,
>
    decreases s.len(),
{
    if s.len() == 0 {
        s
    } else if s[0].job == job {
        seq![FileModel { groups: add_group(s[0].groups, g), ..s[0] }] + s.drop_first()
    } else {
        seq![s[0]] + spec_add_to_job(s.drop_first(), job, g)
    }
}

/// Where the first file keyed by `job` stands at `i`, `spec_add_to_job`
/// is an update at `i`.
pub proof fn lemma_spec_add_to_job_at(s: Seq<FileModel>, job: Seq<char>, g: GroupModel, i: int)
    requires
        0 <= i < s.len(),
        s[i].job == job,
        forall|m: int| 0 <= m < i ==> s[m].job != job,
    ensures
        spec_add_to_job(s, job, g) == s.update(
            i,
            FileModel { groups: add_group(s[i].groups, g), ..s[i] },
        ),
    decreases s.len(),
{
    if i == 0 {
        assert(spec_add_to_job(s, job, g) =~= s.update(
            0,
            FileModel { groups: add_group(s[0].groups, g), ..s[0] },
        ));
    } else {
        let t = s.drop_first();
        assert(s[0].job != job);
        assert forall|m: int| 0 <= m < i - 1 implies t[m].job != job by {
            assert(t[m] == s[m + 1]);
        }
        assert(t[i - 1] == s[i]);
        lemma_spec_add_to_job_at(t, job, g, i - 1);
        assert(spec_add_to_job(s, job, g) =~= s.update(
            i,
            FileModel { groups: add_group(s[i].groups, g), ..s[i] },
        ));
    }
}

/// Adding a group for a job that no file holds changes nothing.
pub proof fn lemma_spec_add_to_job_absent(s: Seq<FileModel>, job: Seq<char>, g: GroupModel)
    requires
        !has_file_for(s, job),
    ensures
        spec_add_to_job(s, job, g) == s,
    decreases s.len(),
{
    if s.len() > 0 {
        assert(s[0].job != job);
        let t = s.drop_first();
        assert forall|m: int| 0 <= m < t.len() implies t[m].job != job by {
            assert(t[m] == s[m + 1]);
        }
        lemma_spec_add_to_job_absent(t, job, g);
        assert(spec_add_to_job(s, job, g) =~= s);
    }
}

/// A job is held by a non-empty sequence exactly when the head holds it
/// or the tail does.
proof fn lemma_has_file_cons(x: FileModel, s: Seq<FileModel>, j: Seq<char>)
    ensures
        has_file_for(seq![x] + s, j) <==> x.job == j || has_file_for(s, j),
{
    let r = seq![x] + s;
    if has_file_for(r, j) {
        let i = choose|i: int| 0 <= i < r.len() && r[i].job == j;
        if i > 0 {
            assert(s[i - 1].job == j);
        }
    }
    if x.job == j {
        assert(r[0].job == j);
    }
    if has_file_for(s, j) {
        let i = choose|i: int| 0 <= i < s.len() && s[i].job == j;
        assert(r[i + 1].job == j);
    }
}

/// After a sorted insertion, the held jobs are the old ones plus the
/// inserted file's.
pub proof fn lemma_insert_file_keys(s: Seq<FileModel>, f: FileModel)
    ensures
        forall|j: Seq<char>|
            #[trigger] has_file_for(spec_insert_file(s, f), j) <==> has_file_for(s, j) || f.job
                == j,
    decreases s.len(),
{
    let r = spec_insert_file(s, f);
    assert forall|j: Seq<char>|
        #[trigger] has_file_for(r, j) <==> has_file_for(s, j) || f.job == j by {
        if s.len() == 0 {
            lemma_has_file_cons(f, Seq::<FileModel>::empty(), j);
            assert(r == seq![f] + Seq::<FileModel>::empty());
        } else {
            let t = s.drop_first();
            assert(s =~= seq![s[0]] + t);
            lemma_has_file_cons(s[0], t, j);
            if lex_lt(s[0].job, f.job) {
                lemma_insert_file_keys(t, f);
                assert(has_file_for(spec_insert_file(t, f), j) <==> has_file_for(t, j) || f.job
                    == j);
                lemma_has_file_cons(s[0], spec_insert_file(t, f), j);
            } else if s[0].job == f.job {
                lemma_has_file_cons(f, t, j);
            } else {
                lemma_has_file_cons(f, s, j);
            }
        }
    }
}

/// Adding a group to a job's file moves no file and renames none: the
/// length and every position's job are unchanged.
pub proof fn lemma_add_to_job_keys(s: Seq<FileModel>, job: Seq<char>, g: GroupModel)
    ensures
        spec_add_to_job(s, job, g).len() == s.len(),
        forall|i: int|
            0 <= i < s.len() ==> #[trigger] spec_add_to_job(s, job, g)[i].job == s[i].job,
    decreases s.len(),
{
    if s.len() > 0 && s[0].job != job {
        lemma_add_to_job_keys(s.drop_first(), job, g);
        let r = spec_add_to_job(s, job, g);
        assert forall|i: int| 0 <= i < s.len() implies #[trigger] r[i].job == s[i].job by {
            if i > 0 {
                assert(r[i] == spec_add_to_job(s.drop_first(), job, g)[i - 1]);
                assert(s.drop_first()[i - 1] == s[i]);
            }
        }
    }
}

/// In a sorted registry, distinct positions hold distinct jobs.
pub proof fn lemma_sorted_files_unique(s: Seq<FileModel>, i: int, j: int)
    requires
        sorted_files(s),
        0 <= i < s.len(),
        0 <= j < s.len(),
        i != j,
    ensures
        s[i].job != s[j].job,
{
    if i < j {
        lemma_lex_strict_order(s[i].job, s[j].job, s[j].job);
    } else {
        lemma_lex_strict_order(s[j].job, s[i].job, s[i].job);
    }
}

/// The job-name-keyed owner of all `TargetFile`s for one run, held in
/// ascending job order.
#[derive(Debug)]
pub struct TargetFiles {
    files: Vec<TargetFile>,
}

impl View for TargetFiles {
    type V = Seq<FileModel>;

    closed spec fn view(&self) -> Seq<FileModel> {
        self.files.deep_view()
    }
}

impl Default for TargetFiles {
    /// An empty registry.
    fn default() -> (r: Self)
        ensures
            r@ == Seq::<FileModel>::empty(),
            r.wf(),
    {
        let r = TargetFiles { files: Vec::new() };
        proof {
            assert(r@ =~= Seq::<FileModel>::empty());
        }
        r
    }
}

impl TargetFiles {
    /// The registry is well formed: strictly sorted by job name.
    pub open spec fn wf(&self) -> bool {
        sorted_files(self@)
    }

    /// The number of files.
    pub fn len(&self) -> (n: usize)
        ensures
            n == self@.len(),
    {
        self.files.len()
    }

    /// The file at position `i`, in ascending job order.
    pub fn file_at(&self, i: usize) -> (r: &TargetFile)
        requires
            i < self@.len(),
        ensures
            r@ == self@[i as int],
    {
        &self.files[i]
    }

    /// Stores `target_file` under `job` at its sorted position, replacing
    /// any existing entry for that job.
    pub fn insert(&mut self, job: String, target_file: TargetFile)
        requires
            old(self).wf(),
            target_file@.job == job@,
        ensures
            final(self).wf(),
            final(self)@ == spec_insert_file(old(self)@, target_file@),
    {
        let ghost f = target_file@;
        let mut i: usize = 0;
        loop
            invariant
                *self == *old(self),
                0 <= i <= self.files@.len(),
                self@.len() == self.files@.len(),
                forall|j: int| 0 <= j < i ==> lex_lt(self@[j].job, job@),
            ensures
                *self == *old(self),
                0 <= i <= self@.len(),
                forall|j: int| 0 <= j < i ==> lex_lt(self@[j].job, job@),
                i < self@.len() ==> !lex_lt(self@[i as int].job, job@),
            decreases self.files@.len() - i,
        {
            if i == self.files.len() {
                break;
            }
            if !str_lt(self.files[i].job().as_str(), job.as_str()) {
                break;
            }
            assert(lex_lt(self@[i as int].job, job@));
            i += 1;
        }
        let ghost olds = self@;
        let ghost pos = i as int;
        if i < self.files.len() && str_eq(self.files[i].job().as_str(), job.as_str()) {
            proof {
                lemma_spec_insert_file_at(olds, f, pos);
            }
            self.files[i] = target_file;
            proof {
                assert(self@ =~= olds.update(pos, f));
                assert forall|i2: int, j2: int| 0 <= i2 < j2 < self@.len() implies lex_lt(
                    self@[i2].job,
                    self@[j2].job,
                ) by {
                    assert(self@[i2].job == olds[i2].job);
                    assert(self@[j2].job == olds[j2].job);
                }
            }
        } else {
            proof {
                lemma_spec_insert_file_at(olds, f, pos);
                assert forall|j: int| pos <= j < olds.len() implies lex_lt(job@, olds[j].job) by {
                    lemma_lex_strict_order(job@, olds[pos].job, olds[j].job);
                    lemma_lex_strict_order(olds[pos].job, job@, job@);
                }
            }
            self.files.insert(i, target_file);
            proof {
                assert(self@ =~= olds.insert(pos, f));
                assert forall|i2: int, j2: int| 0 <= i2 < j2 < self@.len() implies lex_lt(
                    self@[i2].job,
                    self@[j2].job,
                ) by {
                    if i2 < pos && j2 == pos {
                        assert(self@[i2].job == olds[i2].job);
                    } else if i2 == pos && j2 > pos {
                        assert(self@[j2].job == olds[j2 - 1].job);
                    } else if i2 < pos && j2 > pos {
                        assert(self@[i2].job == olds[i2].job);
                        assert(self@[j2].job == olds[j2 - 1].job);
                        lemma_lex_strict_order(olds[i2].job, job@, olds[j2 - 1].job);
                    } else if i2 > pos && j2 > pos {
                        assert(self@[i2].job == olds[i2 - 1].job);
                        assert(self@[j2].job == olds[j2 - 1].job);
                    } else if i2 == pos && j2 == pos {
                    } else {
                        assert(self@[i2].job == olds[i2].job);
                        assert(self@[j2].job == olds[j2].job);
                    }
                }
            }
        }
    }

    /// Whether the registry holds a file for `job`.
    pub fn has_job(&self, job: &str) -> (r: bool)
        ensures
            r == has_file_for(self@, job@),
    {
        let mut i: usize = 0;
        while i < self.files.len()
            invariant
                0 <= i <= self@.len(),
                self@.len() == self.files@.len(),
                forall|j: int| 0 <= j < i ==> self@[j].job != job@,
            decreases self@.len() - i,
        {
            if str_eq(self.files[i].job().as_str(), job) {
                assert(self@[i as int].job == job@);
                return true;
            }
            i += 1;
        }
        false
    }

    /// The file for `job`, when the registry holds one.
    pub fn target_file(&self, job: &str) -> (r: Option<&TargetFile>)
        ensures
            match r {
                Option::Some(tf) => tf@.job == job@ && exists|i: int|
                    0 <= i < self@.len() && self@[i] == tf@,
                Option::None => !has_file_for(self@, job@),
            },
    {
        let mut i: usize = 0;
        while i < self.files.len()
            invariant
                0 <= i <= self@.len(),
                self@.len() == self.files@.len(),
                forall|j: int| 0 <= j < i ==> self@[j].job != job@,
            decreases self@.len() - i,
        {
            if str_eq(self.files[i].job().as_str(), job) {
                assert(self@[i as int] == self.files@[i as int].deep_view());
                return Some(&self.files[i]);
            }
            i += 1;
        }
        None
    }

    /// Mutable access to the file for `job`. The registry after the call
    /// is the registry before it with that one entry replaced by whatever
    /// the caller leaves behind.
    pub fn target_file_mut(&mut self, job: &str) -> (r: Option<&mut TargetFile>)
        requires
            old(self).wf(),
        ensures
            r is Some <==> has_file_for(old(self)@, job@),
            r is None ==> final(self)@ == old(self)@,
            r matches Some(tf) ==> ({
                let i = spec_index_of_job(old(self)@, job@);
                &&& 0 <= i < old(self)@.len()
                &&& old(self)@[i].job == job@
                &&& (*tf)@ == old(self)@[i]
                &&& final(self)@.len() == old(self)@.len()
                &&& final(self)@[i] == final(tf)@
                &&& forall|m: int|
                    0 <= m < old(self)@.len() && m != i ==> final(self)@[m] == old(self)@[m]
            }),
    {
        let len = self.files.len();
        let mut i: usize = 0;
        loop
            invariant
                *self == *old(self),
                len == self@.len(),
                0 <= i <= len,
                forall|j: int| 0 <= j < i ==> self@[j].job != job@,
            ensures
                *self == *old(self),
                0 <= i <= self@.len(),
                forall|j: int| 0 <= j < i ==> self@[j].job != job@,
                i < self@.len() ==> self@[i as int].job == job@,
            decreases len - i,
        {
            if i == len {
                break;
            }
            if str_eq(self.files[i].job().as_str(), job) {
                assert(self@[i as int].job == job@);
                break;
            }
            i += 1;
        }
        if i < self.files.len() {
            proof {
                let w = spec_index_of_job(self@, job@);
                assert(self@[i as int].job == job@);
                assert(has_file_for(self@, job@));
                assert(0 <= w < self@.len() && self@[w].job == job@);
                if w != i as int {
                    lemma_sorted_files_unique(self@, w, i as int);
                }
                assert(w == i as int);
            }
            let tf = &mut self.files[i];
            Some(tf)
        } else {
            None
        }
    }
}

/// The position of the file keyed by `job`, where one exists.
pub open spec fn spec_index_of_job(s: Seq<FileModel>, job: Seq<char>) -> int {
    choose|i: int| 0 <= i < s.len() && s[i].job == job
}

/// One pending write: the sink kind to write to, and the exact text.
#[derive(Debug, Clone, PartialEq, Eq)]
pub struct WriteItem {
    pub kind: OutputKind,
    pub data: String,
}

impl TargetFiles {
    /// Serializes every file, in ascending job order: one pending write
    /// per file, each with that file's exact payload. The first
    /// serialization failure aborts the rest; the run succeeds exactly
    /// when every YAML file's rendered document transcodes, so an
    /// all-JSON registry cannot fail.
    pub fn write_all(&self) -> (r: Result<Vec<WriteItem>, Error>)
        ensures
            r matches Ok(items) ==> {
                &&& items@.len() == self@.len()
                &&& forall|i: int|
                    0 <= i < self@.len() ==> (#[trigger] items@[i]).kind@ == self@[i].output.kind
                        && items@[i].data@ == spec_payload(
                        self@[i].output,
                        self@[i].job,
                        self@[i].groups,
                    )
            },
            r is Ok <==> (forall|i: int|
                0 <= i < self@.len() && (#[trigger] self@[i]).output.format is Yaml
                    ==> crate::yamlconv::json_yaml_ok(
                    crate::jsondoc::json_groups(self@[i].groups),
                )),
            r matches Err(e) ==> e.source is SerdeYaml && e.code == Some(
                crate::error::CODE_RUNTIME_ERROR,
            ),
    {
        let mut items: Vec<WriteItem> = Vec::new();
        let mut i: usize = 0;
        while i < self.files.len()
            invariant
                0 <= i <= self@.len(),
                self@.len() == self.files@.len(),
                items@.len() == i,
                forall|j: int|
                    0 <= j < i ==> (#[trigger] items@[j]).kind@ == self@[j].output.kind
                        && items@[j].data@ == spec_payload(
                        self@[j].output,
                        self@[j].job,
                        self@[j].groups,
                    ),
                forall|j: int|
                    0 <= j < i && (#[trigger] self@[j]).output.format is Yaml
                        ==> crate::yamlconv::json_yaml_ok(
                        crate::jsondoc::json_groups(self@[j].groups),
                    ),
            decreases self@.len() - i,
        {
            let tf = &self.files[i];
            proof {
                assert(self.files@[i as int].deep_view() == self@[i as int]);
            }
            let data = match tf.write() {
                Ok(d) => d,
                Err(e) => {
                    proof {
                        assert(self@[i as int].output.format is Yaml);
                        assert(!crate::yamlconv::json_yaml_ok(
                            crate::jsondoc::json_groups(self@[i as int].groups),
                        ));
                    }
                    return Err(e);
                },
            };
            items.push(WriteItem { kind: tf.output().kind().duplicate(), data });
            i += 1;
        }
        Ok(items)
    }
}

/// A group whose labels are sorted and carry `"job"` mapped to its own
/// job survives a decode round trip: the decoded job is the group's job.
pub proof fn lemma_mirrored_group_round_trippable(g: GroupModel)
    requires
        sorted_label_pairs(g.labels),
        has_pair(g.labels, "job"@, g.job),
    ensures
        spec_job_of(g.labels) == g.job,
{
    crate::labels::lemma_lookup_of_sorted(g.labels, "job"@, g.job);
}

/// No two positions of `s` hold the same string.
pub open spec fn no_dup(s: Seq<Seq<char>>) -> bool {
    forall|i: int, j: int| 0 <= i < j < s.len() ==> s[i] != s[j]
}

/// When every member of `add` from `i` on is already in `ts`, merging
/// adds nothing.
proof fn lemma_merge_already_present(ts: Seq<Seq<char>>, add: Seq<Seq<char>>, i: int)
    requires
        0 <= i <= add.len(),
        forall|j: int| i <= j < add.len() ==> ts.contains(#[trigger] add[j]),
    ensures
        merge_from(ts, add, i) == ts,
    decreases add.len() - i,
{
    if i < add.len() {
        assert(ts.contains(add[i]));
        lemma_merge_already_present(ts, add, i + 1);
    }
}

/// Merging preserves the existing list as a prefix: endpoints are only
/// appended, never reordered or dropped.
proof fn lemma_merge_prefix(ts: Seq<Seq<char>>, add: Seq<Seq<char>>, i: int)
    requires
        0 <= i <= add.len(),
    ensures
        merge_from(ts, add, i).len() >= ts.len(),
        merge_from(ts, add, i).take(ts.len() as int) == ts,
    decreases add.len() - i,
{
    if i >= add.len() {
        assert(merge_from(ts, add, i).take(ts.len() as int) =~= ts);
    } else {
        let ts2 = if ts.contains(add[i]) {
            ts
        } else {
            ts.push(add[i])
        };
        lemma_merge_prefix(ts2, add, i + 1);
        let r = merge_from(ts, add, i);
        assert(r.take(ts2.len() as int) == ts2);
        assert(r.take(ts.len() as int) =~= ts) by {
            assert forall|m: int| 0 <= m < ts.len() implies r[m] == ts[m] by {
                assert(r.take(ts2.len() as int)[m] == r[m]);
                assert(ts2[m] == ts[m]);
            }
        }
    }
}

/// Merging keeps an endpoint list free of duplicates.
proof fn lemma_merge_no_dup(ts: Seq<Seq<char>>, add: Seq<Seq<char>>, i: int)
    requires
        0 <= i <= add.len(),
        no_dup(ts),
    ensures
        no_dup(merge_from(ts, add, i)),
    decreases add.len() - i,
{
    if i < add.len() {
        let ts2 = if ts.contains(add[i]) {
            ts
        } else {
            ts.push(add[i])
        };
        assert(no_dup(ts2)) by {
            if !ts.contains(add[i]) {
                assert forall|a: int, b: int| 0 <= a < b < ts2.len() implies ts2[a] != ts2[b] by {
                    if b < ts.len() {
                        assert(ts2[a] == ts[a] && ts2[b] == ts[b]);
                    } else {
                        assert(ts2[b] == add[i]);
                        assert(ts2[a] == ts[a]);
                        if ts[a] == add[i] {
                            assert(ts.contains(add[i]));
                        }
                    }
                }
            }
        }
        lemma_merge_no_dup(ts2, add, i + 1);
    }
}

/// Endpoint union: merging a candidate endpoint list into an existing
/// one keeps the existing list as a prefix, ends up holding exactly the
/// members of the two lists, and introduces no duplicate when the
/// existing list had none.
pub proof fn lemma_endpoint_union(ts: Seq<Seq<char>>, add: Seq<Seq<char>>)
    ensures
        forall|t: Seq<char>|
            #[trigger] merge_targets(ts, add).contains(t) <==> ts.contains(t) || add.contains(t),
        merge_targets(ts, add).len() >= ts.len(),
        merge_targets(ts, add).take(ts.len() as int) == ts,
        no_dup(ts) ==> no_dup(merge_targets(ts, add)),
{
    lemma_merge_from_membership(ts, add, 0);
    lemma_merge_prefix(ts, add, 0);
    if no_dup(ts) {
        lemma_merge_no_dup(ts, add, 0);
    }
    assert forall|t: Seq<char>|
        #[trigger] merge_targets(ts, add).contains(t) <==> ts.contains(t) || add.contains(
        t,
    ) by {
        assert(merge_from(ts, add, 0).contains(t) <==> ts.contains(t) || exists|j: int|
            0 <= j < add.len() && add[j] == t);
        if add.contains(t) {
            let j = choose|j: int| 0 <= j < add.len() && add[j] == t;
            assert(0 <= j < add.len() && add[j] == t);
        }
        if exists|j: int| 0 <= j < add.len() && add[j] == t {
            let j = choose|j: int| 0 <= j < add.len() && add[j] == t;
            assert(add.contains(t));
        }
    }
}

/// When the first match stands at `k`, no earlier group matches and the
/// one at `k` does.
proof fn lemma_first_match_at(gs: Seq<GroupModel>, c: GroupModel, k: int)
    requires
        0 <= k <= gs.len(),
        forall|j: int| 0 <= j < k ==> !same_identity(#[trigger] gs[j], c),
        k < gs.len() ==> same_identity(gs[k], c),
    ensures
        first_match_from(gs, c, 0) == if k < gs.len() {
            k
        } else {
            gs.len() as int
        },
{
    lemma_first_match_at_from(gs, c, 0, k);
}

proof fn lemma_first_match_at_from(gs: Seq<GroupModel>, c: GroupModel, i: int, k: int)
    requires
        0 <= i <= k <= gs.len(),
        forall|j: int| i <= j < k ==> !same_identity(#[trigger] gs[j], c),
        k < gs.len() ==> same_identity(gs[k], c),
    ensures
        first_match_from(gs, c, i) == if k < gs.len() {
            k
        } else {
            gs.len() as int
        },
    decreases gs.len() - i,
{
    if i < k {
        lemma_first_match_at_from(gs, c, i + 1, k);
    }
}

/// Merge idempotence: adding the same group twice yields the same group
/// list as adding it once.
pub proof fn lemma_add_group_idempotent(gs: Seq<GroupModel>, c: GroupModel)
    ensures
        add_group(add_group(gs, c), c) == add_group(gs, c),
{
    let k = first_match_from(gs, c, 0);
    lemma_first_match_bounds(gs, c, 0);
    let s1 = add_group(gs, c);
    if k < gs.len() {
        let merged = merged_group(gs[k], c);
        assert(s1 == gs.update(k, merged));
        assert(same_identity(merged, c));
        assert forall|j: int| 0 <= j < k implies !same_identity(#[trigger] s1[j], c) by {
            assert(s1[j] == gs[j]);
            lemma_first_match_prefix(gs, c, 0, j);
        }
        lemma_first_match_at(s1, c, k);
        assert(first_match_from(s1, c, 0) == k);
        // Merging c's endpoints again adds nothing: they are all present.
        lemma_merge_from_membership(gs[k].targets, c.targets, 0);
        assert forall|j: int| 0 <= j < c.targets.len() implies merged.targets.contains(
            #[trigger] c.targets[j],
        ) by {
            let t = c.targets[j];
            assert(exists|j2: int| 0 <= j2 < c.targets.len() && c.targets[j2] == t) by {
                assert(0 <= j < c.targets.len() && c.targets[j] == t);
            }
            assert(merge_from(gs[k].targets, c.targets, 0).contains(t));
            assert(merged.targets == merge_from(gs[k].targets, c.targets, 0));
        }
        lemma_merge_already_present(merged.targets, c.targets, 0);
        assert(merged_group(merged, c) =~= merged);
        assert(add_group(s1, c) =~= s1.update(k, merged));
        assert(s1.update(k, merged) =~= s1);
    } else {
        assert(s1 == gs.push(c));
        assert forall|j: int| 0 <= j < gs.len() implies !same_identity(#[trigger] s1[j], c) by {
            assert(s1[j] == gs[j]);
            lemma_first_match_no_match(gs, c, 0, j);
        }
        assert(same_identity(s1[gs.len() as int], c));
        lemma_first_match_at(s1, c, gs.len() as int);
        lemma_merge_from_membership(c.targets, c.targets, 0);
        assert forall|j: int| 0 <= j < c.targets.len() implies c.targets.contains(
            #[trigger] c.targets[j],
        ) by {
            assert(c.targets[j] == c.targets[j]);
        }
        lemma_merge_already_present(c.targets, c.targets, 0);
        assert(merged_group(c, c) =~= c);
        assert(add_group(s1, c) =~= s1.update(gs.len() as int, c));
        assert(s1.update(gs.len() as int, c) =~= s1);
    }
}

/// Positions before the first match do not match.
proof fn lemma_first_match_prefix(gs: Seq<GroupModel>, c: GroupModel, i: int, m: int)
    requires
        0 <= i <= m < gs.len(),
        m < first_match_from(gs, c, i),
    ensures
        !same_identity(gs[m], c),
    decreases gs.len() - i,
{
    if same_identity(gs[i], c) {
        assert(first_match_from(gs, c, i) == i);
    } else if i < m {
        lemma_first_match_prefix(gs, c, i + 1, m);
    }
}

/// Merging never makes an endpoint list lose members, and it adds exactly
/// the candidate's members: membership in the merged list is membership
/// in either input.
pub proof fn lemma_merge_from_membership(ts: Seq<Seq<char>>, add: Seq<Seq<char>>, i: int)
    requires
        0 <= i <= add.len(),
    ensures
        forall|t: Seq<char>|
            #![trigger merge_from(ts, add, i).contains(t)]
            merge_from(ts, add, i).contains(t) <==> ts.contains(t) || exists|j: int|
                i <= j < add.len() && add[j] == t,
    decreases add.len() - i,
{
    if i < add.len() {
        let ts2 = if ts.contains(add[i]) {
            ts
        } else {
            ts.push(add[i])
        };
        lemma_merge_from_membership(ts2, add, i + 1);
        assert forall|t: Seq<char>| #[trigger] ts2.contains(t) implies ts.contains(t) || add[i]
            == t by {
            let m = choose|m: int| 0 <= m < ts2.len() && ts2[m] == t;
            if m < ts.len() {
                assert(ts[m] == t);
            }
        }
        assert forall|t: Seq<char>| #[trigger]
            merge_from(ts, add, i).contains(t) implies ts.contains(t) || exists|j: int|
            i <= j < add.len() && add[j] == t by {
            assert(merge_from(ts2, add, i + 1).contains(t) <==> ts2.contains(t) || exists|j: int|
                i + 1 <= j < add.len() && add[j] == t);
            if ts2.contains(t) {
                if !ts.contains(t) {
                    assert(add[i] == t);
                    assert(i <= i < add.len() && add[i] == t);
                }
            } else {
                let j = choose|j: int| i + 1 <= j < add.len() && add[j] == t;
                assert(i <= j < add.len() && add[j] == t);
            }
        }
        assert forall|t: Seq<char>|
            ts.contains(t) || (exists|j: int| i <= j < add.len() && add[j] == t) implies #[trigger]
            merge_from(ts, add, i).contains(t) by {
            assert(merge_from(ts2, add, i + 1).contains(t) <==> ts2.contains(t) || exists|j: int|
                i + 1 <= j < add.len() && add[j] == t);
            if ts.contains(t) {
                let m = choose|m: int| 0 <= m < ts.len() && ts[m] == t;
                assert(ts2[m] == t);
                assert(ts2.contains(t));
            } else {
                let j = choose|j: int| i <= j < add.len() && add[j] == t;
                if j == i {
                    if ts.contains(add[i]) {
                        assert(ts2.contains(t));
                    } else {
                        assert(ts2[ts.len() as int] == add[i]);
                        assert(ts2.contains(t));
                    }
                } else {
                    assert(i + 1 <= j < add.len() && add[j] == t);
                }
            }
        }
    }
}

/// A group list stays identity-unique and well formed under `add_group`
/// with a well-formed candidate.
pub proof fn lemma_add_group_preserves_wf(gs: Seq<GroupModel>, c: GroupModel)
    requires
        forall|i: int, j: int| 0 <= i < j < gs.len() ==> !same_identity(gs[i], gs[j]),
        forall|i: int| 0 <= i < gs.len() ==> group_model_wf(#[trigger] gs[i]),
        group_model_wf(c),
    ensures
        forall|i: int, j: int|
            0 <= i < j < add_group(gs, c).len() ==> !same_identity(
                add_group(gs, c)[i],
                add_group(gs, c)[j],
            ),
        forall|i: int|
            0 <= i < add_group(gs, c).len() ==> group_model_wf(#[trigger] add_group(gs, c)[i]),
{
    let k = first_match_from(gs, c, 0);
    lemma_first_match_bounds(gs, c, 0);
    let s2 = add_group(gs, c);
    if k < gs.len() {
        let merged = merged_group(gs[k], c);
        assert(group_model_wf(merged));
        assert(s2 == gs.update(k, merged));
        assert forall|i: int, j: int| 0 <= i < j < s2.len() implies !same_identity(
            s2[i],
            s2[j],
        ) by {
            assert(!same_identity(gs[i], gs[j]));
            assert(same_identity(merged, gs[k]));
            if i == k {
                assert(s2[i] == merged && s2[j] == gs[j]);
            } else if j == k {
                assert(s2[i] == gs[i] && s2[j] == merged);
            } else {
                assert(s2[i] == gs[i] && s2[j] == gs[j]);
            }
        }
        assert forall|i: int| 0 <= i < s2.len() implies group_model_wf(#[trigger] s2[i]) by {
            if i != k {
                assert(s2[i] == gs[i]);
            }
        }
    } else {
        assert(s2 == gs.push(c));
        assert forall|i: int, j: int| 0 <= i < j < s2.len() implies !same_identity(
            s2[i],
            s2[j],
        ) by {
            if j < gs.len() {
                assert(!same_identity(gs[i], gs[j]));
            } else {
                assert(s2[j] == c);
                assert(s2[i] == gs[i]);
                lemma_first_match_no_match(gs, c, 0, i);
            }
        }
        assert forall|i: int| 0 <= i < s2.len() implies group_model_wf(#[trigger] s2[i]) by {
            if i < gs.len() {
                assert(s2[i] == gs[i]);
            } else {
                assert(s2[i] == c);
            }
        }
    }
}

/// When `first_match_from` runs off the end, no group at or after `i`
/// matches the candidate.
pub proof fn lemma_first_match_no_match(gs: Seq<GroupModel>, c: GroupModel, i: int, m: int)
    requires
        0 <= i <= m < gs.len(),
        first_match_from(gs, c, i) == gs.len(),
    ensures
        !same_identity(gs[m], c),
    decreases gs.len() - i,
{
    if same_identity(gs[i], c) {
        assert(first_match_from(gs, c, i) == i);
    } else if i < m {
        lemma_first_match_no_match(gs, c, i + 1, m);
    }
}

/// `first_match_from` stays within bounds and, when it lands inside the
/// list, lands on a matching group.
pub proof fn lemma_first_match_bounds(gs: Seq<GroupModel>, c: GroupModel, i: int)
    requires
        0 <= i <= gs.len(),
    ensures
        i <= first_match_from(gs, c, i) <= gs.len(),
        first_match_from(gs, c, i) < gs.len() ==> same_identity(
            gs[first_match_from(gs, c, i)],
            c,
        ),
    decreases gs.len() - i,
{
    if i < gs.len() && !same_identity(gs[i], c) {
        lemma_first_match_bounds(gs, c, i + 1);
    }
}

} // verus!
