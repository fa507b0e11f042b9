//! Source records and their expansion: each `Source` (job list, shared
//! label set, shared target list) fans out into one `TargetGroup`
//! contribution per listed job, fed into the run's `TargetFiles`
//! registry.

use vstd::prelude::*;
use crate::error::{CODE_RUNTIME_ERROR, Error, SourceError};
use crate::labels::{Labels, sorted_label_pairs, spec_mirror_labels};
use crate::output::{Output, OutputFormat, OutputModel};
use crate::strutil::clone_strings;
use crate::target::{
    FileModel, GroupModel, TargetFile, TargetFiles, TargetGroup, add_group, has_file_for,
    lemma_sorted_files_unique, lemma_spec_add_to_job_at, spec_add_to_job, spec_index_of_job,
    spec_insert_file, spec_new_file,
};

verus! {

/// Ghost model of one source record.
#[verifier::ext_equal]
pub ghost struct SourceModel {
    pub jobs: Seq<Seq<char>>,
    pub labels: Seq<(Seq<char>, Seq<char>)>,
    pub targets: Seq<Seq<char>>,
}

/// One parsed input record: the jobs it declares, the label set shared by
/// all of them, and the endpoints shared by all of them.
#[derive(Debug, Clone, PartialEq, Eq)]
pub struct Source {
    jobs: Vec<String>,
    labels: Labels,
    targets: Vec<String>,
}

impl View for Source {
    type V = SourceModel;

    closed spec fn view(&self) -> SourceModel {
        SourceModel {
            jobs: self.jobs.deep_view(),
            labels: self.labels@,
            targets: self.targets.deep_view(),
        }
    }
}

/// The group a source contributes for one of its jobs: the source's
/// labels with `"job"` mirrored in, and the source's endpoints.
pub open spec fn spec_contribution(src: SourceModel, job: Seq<char>) -> GroupModel {
    GroupModel { job: job, labels: spec_mirror_labels(src.labels, job), targets: src.targets }
}

/// One expansion step for `job`: a fresh file is created at its sorted
/// position when the registry has none, then the contribution is merged
/// into that job's file.
pub open spec fn spec_expand_step(
    files: Seq<FileModel>,
    src: SourceModel,
    job: Seq<char>,
    output: OutputModel,
    format: OutputFormat,
) -> Seq<FileModel> {
    let files2 = if has_file_for(files, job) {
        files
    } else {
        spec_insert_file(files, spec_new_file(job, output, format))
    };
    spec_add_to_job(files2, job, spec_contribution(src, job))
}

/// The registry after expanding the first `n` jobs of the source, in
/// order.
pub open spec fn spec_expand(
    files: Seq<FileModel>,
    src: SourceModel,
    output: OutputModel,
    format: OutputFormat,
    n: int,
) -> Seq<FileModel>
    decreases n,
{
    if n <= 0 {
        files
    } else {
        spec_expand_step(
            spec_expand(files, src, output, format, n - 1),
            src,
            src.jobs[n - 1],
            output,
            format,
        )
    }
}

/// The first position at or after `i` holding an empty job name, or the
/// length when every job name from `i` on is non-empty.
pub open spec fn first_empty_from(jobs: Seq<Seq<char>>, i: int) -> int
    decreases jobs.len() - i,
{
    if i < 0 || i >= jobs.len() {
        jobs.len() as int
    } else if jobs[i].len() == 0 {
        i
    } else {
        first_empty_from(jobs, i + 1)
    }
}

impl Source {
    /// The source is well formed: its labels are sorted by key.
    pub open spec fn wf(&self) -> bool {
        sorted_label_pairs(self@.labels)
    }

    /// The declared job names, in order.
    pub fn jobs(&self) -> (r: &Vec<String>)
        ensures
            r.deep_view() == self@.jobs,
    {
        &self.jobs
    }

    /// Mutable access to the declared job names.
    pub fn jobs_mut(&mut self) -> (r: &mut Vec<String>)
        ensures
            (*r).deep_view() == old(self)@.jobs,
            final(self)@.jobs == final(r).deep_view(),
            final(self)@.labels == old(self)@.labels,
            final(self)@.targets == old(self)@.targets,
    {
        &mut self.jobs
    }

    /// The shared label set.
    pub fn labels(&self) -> (r: &Labels)
        ensures
            r@ == self@.labels,
    {
        &self.labels
    }

    /// Mutable access to the shared label set.
    pub fn labels_mut(&mut self) -> (r: &mut Labels)
        ensures
            (*r)@ == old(self)@.labels,
            final(self)@.labels == final(r)@,
            final(self)@.jobs == old(self)@.jobs,
            final(self)@.targets == old(self)@.targets,
    {
        &mut self.labels
    }

    /// The shared endpoints, in order, duplicates permitted.
    pub fn targets(&self) -> (r: &Vec<String>)
        ensures
            r.deep_view() == self@.targets,
    {
        &self.targets
    }

    /// Mutable access to the shared endpoints.
    pub fn targets_mut(&mut self) -> (r: &mut Vec<String>)
        ensures
            (*r).deep_view() == old(self)@.targets,
            final(self)@.targets == final(r).deep_view(),
            final(self)@.jobs == old(self)@.jobs,
            final(self)@.labels == old(self)@.labels,
    {
        &mut self.targets
    }

    /// Fans the source out into the registry: one contribution per listed
    /// job, each merged into that job's (lazily created) file. A source
    /// without jobs, or with an empty job name, is rejected; the jobs
    /// before the first empty name have already been applied when the
    /// rejection happens.
    pub fn into_targets(
        &self,
        output: &Output,
        format: &OutputFormat,
        target_files: &mut TargetFiles,
    ) -> (r: Result<(), Error>)
        requires
            old(target_files).wf(),
            self.wf(),
        ensures
            final(target_files).wf(),
            self@.jobs.len() == 0 ==> final(target_files)@ == old(target_files)@,
            self@.jobs.len() > 0 ==> final(target_files)@ == spec_expand(
                old(target_files)@,
                self@,
                output@,
                *format,
                first_empty_from(self@.jobs, 0),
            ),
            r is Ok <==> self@.jobs.len() > 0 && first_empty_from(self@.jobs, 0)
                == self@.jobs.len(),
            r matches Err(e) ==> {
                &&& e.source is InvalidInputSource
                &&& e.code == Some(CODE_RUNTIME_ERROR)
                &&& self@.jobs.len() == 0 ==> (e.source matches SourceError::InvalidInputSource(
                    m,
                ) && m@ == "Source must have at least one job"@)
                &&& self@.jobs.len() > 0 ==> (e.source matches SourceError::InvalidInputSource(
                    m,
                ) && m@ == "Jobs in source cannot be empty"@)
            },
    {
        if self.jobs.len() == 0 {
            return Err(
                Error::new(
                    SourceError::InvalidInputSource("Source must have at least one job".to_owned()),
                ).code(CODE_RUNTIME_ERROR),
            );
        }
        let ghost olds = target_files@;
        let ghost srcm = self@;
        let n = self.jobs.len();
        let mut k: usize = 0;
        while k < n
            invariant
                0 <= k <= n,
                n == self.jobs@.len(),
                n == self@.jobs.len(),
                n > 0,
                self.wf(),
                srcm == self@,
                olds == old(target_files)@,
                target_files.wf(),
                target_files@ == spec_expand(olds, srcm, output@, *format, k as int),
                forall|j: int| 0 <= j < k ==> self@.jobs[j].len() > 0,
                first_empty_from(self@.jobs, 0) == first_empty_from(self@.jobs, k as int),
            decreases n - k,
        {
            let job = &self.jobs[k];
            proof {
                assert(job@ == srcm.jobs[k as int]);
            }
            if job.as_str().is_empty() {
                proof {
                    assert(first_empty_from(srcm.jobs, k as int) == k);
                }
                return Err(
                    Error::new(
                        SourceError::InvalidInputSource("Jobs in source cannot be empty".to_owned()),
                    ).code(CODE_RUNTIME_ERROR),
                );
            }
            let ghost prev = target_files@;
            if !target_files.has_job(job.as_str()) {
                let tf = match TargetFile::new(job.as_str(), output, format) {
                    Ok(tf) => tf,
                    Err(e) => {
                        return Err(e);
                    },
                };
                target_files.insert(job.clone(), tf);
            }
            let ghost files2 = target_files@;
            proof {
                assert(files2 == if has_file_for(prev, job@) {
                    prev
                } else {
                    spec_insert_file(prev, spec_new_file(job@, output@, *format))
                });
                assert(has_file_for(files2, job@)) by {
                    if !has_file_for(prev, job@) {
                        lemma_insert_file_has(prev, spec_new_file(job@, output@, *format));
                    }
                }
            }
            let ts = clone_strings(&self.targets);
            proof {
                assert(ts.deep_view() =~= self.targets.deep_view());
            }
            let group = TargetGroup::new(job.as_str(), self.labels.duplicate(), ts);
            proof {
                assert(group@ =~= spec_contribution(srcm, job@));
            }
            match target_files.target_file_mut(job.as_str()) {
                Some(tf) => {
                    tf.add_target(group);
                },
                None => {},
            }
            proof {
                let i = spec_index_of_job(files2, job@);
                assert(target_files@[i] == FileModel {
                    groups: add_group(files2[i].groups, spec_contribution(srcm, job@)),
                    ..files2[i]
                });
                assert(target_files@ =~= files2.update(i, target_files@[i]));
                assert forall|m: int| 0 <= m < i implies files2[m].job != job@ by {
                    lemma_sorted_files_unique(files2, m, i);
                }
                lemma_spec_add_to_job_at(files2, job@, spec_contribution(srcm, job@), i);
                assert(target_files@ == spec_add_to_job(
                    files2,
                    job@,
                    spec_contribution(srcm, job@),
                ));
                assert(target_files@ == spec_expand_step(prev, srcm, job@, output@, *format));
                assert(target_files@ == spec_expand(olds, srcm, output@, *format, k + 1));
                assert forall|i2: int, j2: int| 0 <= i2 < j2 < target_files@.len() implies
                    crate::strutil::lex_lt(target_files@[i2].job, target_files@[j2].job) by {
                    assert(target_files@[i2].job == files2[i2].job);
                    assert(target_files@[j2].job == files2[j2].job);
                }
            }
            k += 1;
        }
        proof {
            assert(first_empty_from(srcm.jobs, n as int) == n);
        }
        Ok(())
    }
}

/// Job fan-out: after expanding the first `n` jobs of a source, the
/// registry holds a file for exactly the jobs it held before plus the
/// expanded ones — every listed job gets its file, and no other file
/// appears.
pub proof fn lemma_expand_keys(
    files: Seq<FileModel>,
    src: SourceModel,
    output: OutputModel,
    format: OutputFormat,
    n: int,
)
    requires
        0 <= n <= src.jobs.len(),
    ensures
        forall|j: Seq<char>|
            #[trigger] has_file_for(spec_expand(files, src, output, format, n), j)
                <==> has_file_for(files, j) || (exists|k: int| 0 <= k < n && src.jobs[k] == j),
    decreases n,
{
    if n > 0 {
        lemma_expand_keys(files, src, output, format, n - 1);
        let prev = spec_expand(files, src, output, format, n - 1);
        let job = src.jobs[n - 1];
        let files2 = if has_file_for(prev, job) {
            prev
        } else {
            spec_insert_file(prev, spec_new_file(job, output, format))
        };
        crate::target::lemma_insert_file_keys(prev, spec_new_file(job, output, format));
        let g = spec_contribution(src, job);
        crate::target::lemma_add_to_job_keys(files2, job, g);
        let r = spec_add_to_job(files2, job, g);
        assert forall|j: Seq<char>|
            #[trigger] has_file_for(r, j) <==> has_file_for(files2, j) by {
            if has_file_for(r, j) {
                let i = choose|i: int| 0 <= i < r.len() && r[i].job == j;
                assert(files2[i].job == j);
            }
            if has_file_for(files2, j) {
                let i = choose|i: int| 0 <= i < files2.len() && files2[i].job == j;
                assert(r[i].job == j);
            }
        }
        assert forall|j: Seq<char>|
            #[trigger] has_file_for(r, j) <==> has_file_for(files, j) || (exists|k: int|
                0 <= k < n && src.jobs[k] == j) by {
            if has_file_for(files2, j) && !has_file_for(files, j) {
                if !(exists|k: int| 0 <= k < n - 1 && src.jobs[k] == j) {
                    assert(j == job);
                    assert(0 <= n - 1 < n && src.jobs[n - 1] == j);
                }
            }
            if exists|k: int| 0 <= k < n && src.jobs[k] == j {
                let k = choose|k: int| 0 <= k < n && src.jobs[k] == j;
                if k < n - 1 {
                    assert(exists|k2: int| 0 <= k2 < n - 1 && src.jobs[k2] == j);
                } else {
                    assert(j == job);
                }
            }
        }
    }
}

/// After a sorted insertion the registry holds a file for the inserted
/// job.
pub proof fn lemma_insert_file_has(s: Seq<FileModel>, f: FileModel)
    ensures
        has_file_for(spec_insert_file(s, f), f.job),
    decreases s.len(),
{
    let r = spec_insert_file(s, f);
    if s.len() == 0 {
        assert(r[0] == f);
    } else if crate::strutil::lex_lt(s[0].job, f.job) {
        lemma_insert_file_has(s.drop_first(), f);
        let t = spec_insert_file(s.drop_first(), f);
        let w = choose|w: int| 0 <= w < t.len() && t[w].job == f.job;
        assert(r[w + 1] == t[w]);
    } else {
        assert(r[0] == f);
    }
}

/// The source models of a source vector, in order.
pub open spec fn models_of(ss: Seq<Source>) -> Seq<SourceModel> {
    ss.map_values(|s: Source| s@)
}

/// A source passes validation: it has jobs and none of them is empty.
pub open spec fn source_ok(sm: SourceModel) -> bool {
    sm.jobs.len() > 0 && first_empty_from(sm.jobs, 0) == sm.jobs.len()
}

/// The first position at or after `i` of a source that fails validation,
/// or the length when all pass.
pub open spec fn first_bad_from(ms: Seq<SourceModel>, i: int) -> int
    decreases ms.len() - i,
{
    if i < 0 || i >= ms.len() {
        ms.len() as int
    } else if !source_ok(ms[i]) {
        i
    } else {
        first_bad_from(ms, i + 1)
    }
}

/// The registry after fully expanding the first `n` sources, in order.
pub open spec fn spec_run(
    files: Seq<FileModel>,
    ms: Seq<SourceModel>,
    output: OutputModel,
    format: OutputFormat,
    n: int,
) -> Seq<FileModel>
    decreases n,
{
    if n <= 0 {
        files
    } else {
        let prev = spec_run(files, ms, output, format, n - 1);
        spec_expand(prev, ms[n - 1], output, format, ms[n - 1].jobs.len() as int)
    }
}

/// Expands a whole batch of sources into the registry, in the order they
/// were supplied. The first validation failure aborts the run at that
/// point: sources before it are fully applied, the failing source up to
/// its first empty job name.
pub fn expand_sources(
    sources: &Vec<Source>,
    output: &Output,
    format: &OutputFormat,
    target_files: &mut TargetFiles,
) -> (r: Result<(), Error>)
    requires
        old(target_files).wf(),
        forall|i: int| 0 <= i < sources@.len() ==> (#[trigger] sources@[i]).wf(),
    ensures
        final(target_files).wf(),
        r is Ok <==> first_bad_from(models_of(sources@), 0) == sources@.len(),
        final(target_files)@ == ({
            let ms = models_of(sources@);
            let fb = first_bad_from(ms, 0);
            let base = spec_run(old(target_files)@, ms, output@, *format, fb);
            if fb == ms.len() {
                base
            } else if ms[fb].jobs.len() == 0 {
                base
            } else {
                spec_expand(base, ms[fb], output@, *format, first_empty_from(ms[fb].jobs, 0))
            }
        }),
        r matches Err(e) ==> e.source is InvalidInputSource && e.code == Some(CODE_RUNTIME_ERROR),
{
    let ghost ms = models_of(sources@);
    let ghost olds = target_files@;
    let n = sources.len();
    let mut k: usize = 0;
    while k < n
        invariant
            0 <= k <= n,
            n == sources@.len(),
            ms == models_of(sources@),
            olds == old(target_files)@,
            forall|i: int| 0 <= i < sources@.len() ==> (#[trigger] sources@[i]).wf(),
            target_files.wf(),
            target_files@ == spec_run(olds, ms, output@, *format, k as int),
            forall|i: int| 0 <= i < k ==> source_ok(#[trigger] ms[i]),
            first_bad_from(ms, 0) == first_bad_from(ms, k as int),
        decreases n - k,
    {
        let src = &sources[k];
        proof {
            assert(src@ == ms[k as int]);
        }
        match src.into_targets(output, format, target_files) {
            Ok(()) => {
                proof {
                    assert(source_ok(ms[k as int]));
                    assert(target_files@ == spec_run(olds, ms, output@, *format, k + 1));
                }
            },
            Err(e) => {
                proof {
                    assert(!source_ok(ms[k as int]));
                    assert(first_bad_from(ms, k as int) == k);
                }
                return Err(e);
            },
        }
        k += 1;
    }
    proof {
        assert(first_bad_from(ms, n as int) == n);
    }
    Ok(())
}

impl Default for Source {
    /// An empty source: no jobs, no labels, no endpoints.
    fn default() -> (r: Self)
        ensures
            r@ == (SourceModel {
                jobs: Seq::<Seq<char>>::empty(),
                labels: Seq::<(Seq<char>, Seq<char>)>::empty(),
                targets: Seq::<Seq<char>>::empty(),
            }),
            r.wf(),
    {
        let r = Source { jobs: Vec::new(), labels: Labels::new(), targets: Vec::new() };
        proof {
            assert(r@ =~= SourceModel {
                jobs: Seq::<Seq<char>>::empty(),
                labels: Seq::<(Seq<char>, Seq<char>)>::empty(),
                targets: Seq::<Seq<char>>::empty(),
            });
        }
        r
    }
}

} // verus!
