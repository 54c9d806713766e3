//! Checks of cron jobs for common problems.

use vstd::prelude::*;
use vstd::string::StringSliceAdditionalSpecFns;
use vstd::utf8::{decode_utf8, encode_utf8, is_char_boundary};
use crate::cron::{CronJob, CronJobView};
use crate::text::{
    contains_seq, second_piece, second_piece_str, split_whitespace, starts_with, str_contains,
    str_contains_char, strip_prefix, strip_prefix_str, trim, trim_start_char, trim_start_char_str,
    trim_str, words,
};

verus! {

broadcast use vstd::utf8::encode_utf8_decode_utf8;

/// How serious an issue is.
#[derive(Debug, Clone, Copy, PartialEq, Eq)]
pub enum Severity {
    Error,
    Warning,
}

impl Severity {
    /// The tag an issue of this severity is shown with.
    pub fn label(&self) -> (r: &'static str)
        ensures
            r@ == (match self {
                Severity::Error => "ERROR"@,
                Severity::Warning => "WARN"@,
            }),
    {
        match self {
            Severity::Error => "ERROR",
            Severity::Warning => "WARN",
        }
    }
}

/// A problem found with a cron job.
#[derive(Debug, Clone, PartialEq, Eq)]
pub struct Issue {
    pub severity: Severity,
    pub job_command: String,
    pub user: String,
    pub message: String,
}

/// The mathematical value of an [`Issue`].
pub struct IssueView {
    pub severity: Severity,
    pub job_command: Seq<char>,
    pub user: Seq<char>,
    pub message: Seq<char>,
}

impl View for Issue {
    type V = IssueView;

    open spec fn view(&self) -> IssueView {
        IssueView {
            severity: self.severity,
            job_command: self.job_command@,
            user: self.user@,
            message: self.message@,
        }
    }
}

impl DeepView for Issue {
    type V = IssueView;

    open spec fn deep_view(&self) -> IssueView {
        self@
    }
}

/// What the file system holds at the path of a job's executable.
#[derive(Debug, Clone, Copy, PartialEq, Eq)]
pub enum PathState {
    /// Nothing exists at the path.
    Missing,
    /// Something that is not a regular file, or whose metadata could not
    /// be read.
    NotAFile,
    /// A regular file with these permission bits.
    File { mode: u32 },
}

/// Whether cutting the UTF-8 encoding of `s` to `max` bytes ends on a
/// character boundary (or leaves it whole).
pub open spec fn truncatable(s: Seq<char>, max: nat) -> bool {
    encode_utf8(s).len() > max ==> is_char_boundary(encode_utf8(s), max as int)
}

/// `s` cut to its first `max` bytes followed by `...` when longer than
/// `max` bytes, else `s` itself.
pub open spec fn truncate_spec(s: Seq<char>, max: nat) -> Seq<char> {
    if encode_utf8(s).len() > max {
        decode_utf8(encode_utf8(s).take(max as int)) + "..."@
    } else {
        s
    }
}

/// Shortens `s` to `max` bytes, marking the cut with `...`.
pub fn truncate(s: &str, max: usize) -> (r: String)
    requires
        truncatable(s@, max as nat),
    ensures
        r@ == truncate_spec(s@, max as nat),
{
    let nbytes = s.as_bytes().len();
    if nbytes > max {
        let (head, _tail) = s.split_at(max);
        proof {
            assert(encode_utf8(head@) == head.spec_bytes());
            assert(head.spec_bytes() =~= encode_utf8(s@).take(max as int));
            assert(decode_utf8(encode_utf8(head@)) == head@);
        }
        let mut r = String::from_str(head);
        r.append("...");
        r
    } else {
        String::from_str(s)
    }
}

/// The first word of a cron command, looking past a leading `cd ... &&`,
/// a `sudo`/`nice`/`ionice` prefix, a `/bin/sh -c` or `/bin/bash -c`
/// wrapper and opening quotes.
pub open spec fn executable_spec(command: Seq<char>) -> Option<Seq<char>> {
    let c0 = trim(command);
    let c1 = if starts_with(c0, "cd "@) {
        match second_piece(c0, "&&"@) {
            Some(x) => trim(x),
            None => c0,
        }
    } else {
        c0
    };
    let c2 = trim(
        match strip_prefix(c1, "sudo "@) {
            Some(x) => x,
            None => match strip_prefix(c1, "nice "@) {
                Some(x) => x,
                None => match strip_prefix(c1, "ionice "@) {
                    Some(x) => x,
                    None => c1,
                },
            },
        },
    );
    let c3 = trim_start_char(
        trim_start_char(
            trim(
                match strip_prefix(c2, "/bin/sh -c "@) {
                    Some(x) => x,
                    None => match strip_prefix(c2, "/bin/bash -c "@) {
                        Some(x) => x,
                        None => c2,
                    },
                },
            ),
            '\'',
        ),
        '"',
    );
    let w = words(c3);
    if w.len() > 0 {
        Some(w[0])
    } else {
        None
    }
}

/// Extracts the executable a cron command runs.
pub fn extract_executable(command: &str) -> (r: Option<&str>)
    ensures
        r.deep_view() == executable_spec(command@),
{
    let c0 = trim_str(command);
    let c1 = if str_starts_with_cd(c0) {
        match second_piece_str(c0, "&&") {
            Some(x) => trim_str(x),
            None => c0,
        }
    } else {
        c0
    };
    let c2 = trim_str(
        match strip_prefix_str(c1, "sudo ") {
            Some(x) => x,
            None => match strip_prefix_str(c1, "nice ") {
                Some(x) => x,
                None => match strip_prefix_str(c1, "ionice ") {
                    Some(x) => x,
                    None => c1,
                },
            },
        },
    );
    let c3 = trim_start_char_str(
        trim_start_char_str(
            trim_str(
                match strip_prefix_str(c2, "/bin/sh -c ") {
                    Some(x) => x,
                    None => match strip_prefix_str(c2, "/bin/bash -c ") {
                        Some(x) => x,
                        None => c2,
                    },
                },
            ),
            '\'',
        ),
        '"',
    );
    let w = split_whitespace(c3);
    assert(w.deep_view().len() == w@.len());
    if w.len() > 0 {
        Some(w[0])
    } else {
        None
    }
}

fn str_starts_with_cd(s: &str) -> (r: bool)
    ensures
        r == starts_with(s@, "cd "@),
{
    crate::text::str_starts_with(s, "cd ")
}

/// The path whose file-system state decides the executable checks of a
/// command: its executable when that is an absolute path not starting
/// with `$` or `(`.
pub open spec fn probed_path_spec(command: Seq<char>) -> Option<Seq<char>> {
    match executable_spec(command) {
        Some(p) => if p.len() > 0 && p[0] != '$' && p[0] != '(' && p[0] == '/' {
            Some(p)
        } else {
            None
        },
        None => None,
    }
}

/// The path to look up on the file system before checking a command, if any.
pub fn probed_path(command: &str) -> (r: Option<&str>)
    ensures
        r.deep_view() == probed_path_spec(command@),
{
    match extract_executable(command) {
        Some(p) => {
            if p.unicode_len() > 0 && p.get_char(0) == '/' {
                Some(p)
            } else {
                None
            }
        },
        None => None,
    }
}

/// The issue every check reports, for a job.
pub open spec fn issue_of(job: CronJobView, severity: Severity, message: Seq<char>) -> IssueView {
    IssueView { severity, job_command: job.command, user: job.user, message }
}

/// The issue about a job's executable, given what is at its path.
pub open spec fn executable_issue(job: CronJobView, state: PathState) -> Seq<IssueView> {
    match probed_path_spec(job.command) {
        Some(path) => match state {
            PathState::Missing => seq![
                issue_of(job, Severity::Error, "executable not found: "@ + path),
            ],
            PathState::File { mode } => if mode & 0o111 == 0 {
                seq![issue_of(job, Severity::Error, "file not executable: "@ + path)]
            } else {
                Seq::empty()
            },
            PathState::NotAFile => Seq::empty(),
        },
        None => Seq::empty(),
    }
}

/// The warning about a job that runs every minute without sleeping.
pub open spec fn every_minute_issue(job: CronJobView) -> Seq<IssueView> {
    if job.schedule == "* * * * *"@ && !contains_seq(job.command, "sleep"@) {
        seq![issue_of(job, Severity::Warning, "runs every minute — is this intentional?"@)]
    } else {
        Seq::empty()
    }
}

/// The warning about a job whose output is not redirected and so is mailed.
pub open spec fn mailed_output_issue(job: CronJobView) -> Seq<IssueView> {
    if !job.command.contains('>') && !contains_seq(job.command, ">/dev/null"@) && !contains_seq(
        job.command,
        "logger"@,
    ) && !contains_seq(job.command, "2>&1"@) {
        seq![issue_of(job, Severity::Warning, "no output redirection — output will be mailed"@)]
    } else {
        Seq::empty()
    }
}

/// All issues of one job on its own.
pub open spec fn job_issues(job: CronJobView, state: PathState) -> Seq<IssueView> {
    executable_issue(job, state) + every_minute_issue(job) + mailed_output_issue(job)
}

/// The state for job `i`: the given one, or `NotAFile` (no check) past the end.
pub open spec fn state_at(states: Seq<PathState>, i: int) -> PathState {
    if 0 <= i < states.len() {
        states[i]
    } else {
        PathState::NotAFile
    }
}

/// The issues of the first `k` jobs, each on its own, in job order.
pub open spec fn single_issues(jobs: Seq<CronJobView>, states: Seq<PathState>, k: int) -> Seq<
    IssueView,
>
    decreases k,
{
    if k <= 0 {
        Seq::empty()
    } else {
        single_issues(jobs, states, k - 1) + job_issues(jobs[k - 1], state_at(states, k - 1))
    }
}

/// Two jobs of one user on one schedule.
pub open spec fn same_slot(a: CronJobView, b: CronJobView) -> bool {
    a.schedule == b.schedule && a.user == b.user
}

/// The overlap warnings of job `i` against jobs `i+1 .. j`.
pub open spec fn overlap_row(jobs: Seq<CronJobView>, i: int, j: int) -> Seq<IssueView>
    decreases j - i,
{
    if j <= i + 1 {
        Seq::empty()
    } else {
        overlap_row(jobs, i, j - 1) + if same_slot(jobs[i], jobs[j - 1]) {
            seq![
                issue_of(
                    jobs[i],
                    Severity::Warning,
                    "same schedule as another job: "@ + truncate_spec(jobs[j - 1].command, 60),
                ),
            ]
        } else {
            Seq::empty()
        }
    }
}

/// The overlap warnings of the first `k` jobs against all later ones.
pub open spec fn overlap_issues(jobs: Seq<CronJobView>, k: int) -> Seq<IssueView>
    decreases k,
{
    if k <= 0 {
        Seq::empty()
    } else {
        overlap_issues(jobs, k - 1) + overlap_row(jobs, k - 1, jobs.len() as int)
    }
}

/// Every issue of a list of jobs: each job's own issues in order, then a
/// warning for each pair of jobs of one user on one schedule.
pub open spec fn check_spec(jobs: Seq<CronJobView>, states: Seq<PathState>) -> Seq<IssueView> {
    single_issues(jobs, states, jobs.len() as int) + overlap_issues(jobs, jobs.len() as int)
}

/// Whether every overlap message can be cut to 60 bytes on a character
/// boundary.
pub open spec fn overlap_messages_cuttable(jobs: Seq<CronJobView>) -> bool {
    forall|i: int, j: int|
        #![trigger jobs[i], jobs[j]]
        0 <= i < j < jobs.len() && same_slot(jobs[i], jobs[j]) ==> truncatable(jobs[j].command, 60)
}

fn make_issue(job: &CronJob, severity: Severity, message: String) -> (r: Issue)
    ensures
        r@ == issue_of(job@, severity, message@),
{
    Issue { severity, job_command: job.command.clone(), user: job.user.clone(), message }
}

fn push_issue(v: &mut Vec<Issue>, i: Issue)
    ensures
        final(v).deep_view() == old(v).deep_view().push(i@),
{
    let ghost old_dv = v.deep_view();
    v.push(i);
    assert(v.deep_view() =~= old_dv.push(i@));
}

fn job_issue_list(job: &CronJob, state: PathState) -> (v: Vec<Issue>)
    ensures
        v.deep_view() == job_issues(job@, state),
{
    let mut v: Vec<Issue> = Vec::new();
    match probed_path(job.command.as_str()) {
        Some(path) => {
            match state {
                PathState::Missing => {
                    let mut m = String::from_str("executable not found: ");
                    m.append(path);
                    push_issue(&mut v, make_issue(job, Severity::Error, m));
                },
                PathState::File { mode } => {
                    if mode & 0o111 == 0 {
                        let mut m = String::from_str("file not executable: ");
                        m.append(path);
                        push_issue(&mut v, make_issue(job, Severity::Error, m));
                    }
                },
                PathState::NotAFile => {},
            }
        },
        None => {},
    }
    assert(v.deep_view() =~= executable_issue(job@, state));
    let ghost e = v.deep_view();
    if crate::text::str_eq(job.schedule.as_str(), "* * * * *") && !str_contains(
        job.command.as_str(),
        "sleep",
    ) {
        push_issue(
            &mut v,
            make_issue(
                job,
                Severity::Warning,
                String::from_str("runs every minute — is this intentional?"),
            ),
        );
    }
    assert(v.deep_view() =~= e + every_minute_issue(job@));
    let ghost e2 = v.deep_view();
    let c = job.command.as_str();
    if !str_contains_char(c, '>') && !str_contains(c, ">/dev/null") && !str_contains(c, "logger")
        && !str_contains(c, "2>&1") {
        push_issue(
            &mut v,
            make_issue(
                job,
                Severity::Warning,
                String::from_str("no output redirection — output will be mailed"),
            ),
        );
    }
    assert(v.deep_view() =~= e2 + mailed_output_issue(job@));
    v
}

/// Checks cron jobs for common issues.  `states[i]` is what the file system
/// holds at `probed_path` of job `i`'s command (a job without such a path
/// gets no executable check).
pub fn check_jobs(jobs: &Vec<CronJob>, states: &Vec<PathState>) -> (issues: Vec<Issue>)
    requires
        states@.len() == jobs@.len(),
        overlap_messages_cuttable(jobs.deep_view()),
    ensures
        issues.deep_view() == check_spec(jobs.deep_view(), states@),
{
    let ghost jv = jobs.deep_view();
    let n = jobs.len();
    let mut issues: Vec<Issue> = Vec::new();
    let mut k: usize = 0;
    while k < n
        invariant
            n == jobs@.len(),
            jv == jobs.deep_view(),
            k <= n,
            issues.deep_view() == single_issues(jv, states@, k as int),
        decreases n - k,
    {
        let state = if k < states.len() {
            states[k]
        } else {
            PathState::NotAFile
        };
        let mut more = job_issue_list(&jobs[k], state);
        let ghost before = issues.deep_view();
        let ghost add = more.deep_view();
        issues.append(&mut more);
        assert(issues.deep_view() =~= before + add);
        k = k + 1;
    }
    let ghost singles = issues.deep_view();
    let mut i: usize = 0;
    while i < n
        invariant
            n == jobs@.len(),
            jv == jobs.deep_view(),
            overlap_messages_cuttable(jv),
            i <= n,
            issues.deep_view() == singles + overlap_issues(jv, i as int),
        decreases n - i,
    {
        let mut j: usize = i + 1;
        let ghost row_start = issues.deep_view();
        assert(overlap_row(jv, i as int, j as int) =~= Seq::<IssueView>::empty());
        assert(row_start + Seq::<IssueView>::empty() =~= row_start);
        while j < n
            invariant
                n == jobs@.len(),
                jv == jobs.deep_view(),
                overlap_messages_cuttable(jv),
                i < n,
                i + 1 <= j <= n,
                issues.deep_view() == row_start + overlap_row(jv, i as int, j as int),
            decreases n - j,
        {
            let ghost before = issues.deep_view();
            if jobs[i].schedule == jobs[j].schedule && jobs[i].user == jobs[j].user {
                assert(same_slot(jv[i as int], jv[j as int]));
                assert(truncatable(jv[j as int].command, 60));
                let mut m = String::from_str("same schedule as another job: ");
                let t = truncate(jobs[j].command.as_str(), 60);
                m.append(t.as_str());
                push_issue(&mut issues, make_issue(&jobs[i], Severity::Warning, m));
            }
            assert(issues.deep_view() =~= row_start + overlap_row(jv, i as int, j + 1));
            j = j + 1;
        }
        assert(singles + overlap_issues(jv, i + 1) =~= (singles + overlap_issues(jv, i as int))
            + overlap_row(jv, i as int, n as int));
        i = i + 1;
    }
    issues
}


/// An overlap warning for job `i` caused by the later job `j`.
pub open spec fn is_overlap_warning(jobs: Seq<CronJobView>, x: IssueView) -> bool {
    exists|i: int, j: int|
        0 <= i < j < jobs.len() && same_slot(jobs[i], jobs[j]) && x == #[trigger] overlap_warning(
            jobs,
            i,
            j,
        )
}

/// The overlap warning of job `i` against job `j`.
pub open spec fn overlap_warning(jobs: Seq<CronJobView>, i: int, j: int) -> IssueView {
    issue_of(
        jobs[i],
        Severity::Warning,
        "same schedule as another job: "@ + truncate_spec(jobs[j].command, 60),
    )
}

proof fn lemma_overlap_row(jobs: Seq<CronJobView>, i: int, j: int)
    requires
        0 <= i,
        j <= jobs.len(),
    ensures
        forall|k: int|
            0 <= k < overlap_row(jobs, i, j).len() ==> is_overlap_warning(
                jobs,
                #[trigger] overlap_row(jobs, i, j)[k],
            ),
    decreases j - i,
{
    if j > i + 1 {
        lemma_overlap_row(jobs, i, j - 1);
        let a = overlap_row(jobs, i, j - 1);
        let b: Seq<IssueView> = if same_slot(jobs[i], jobs[j - 1]) {
            seq![overlap_warning(jobs, i, j - 1)]
        } else {
            Seq::empty()
        };
        assert(overlap_row(jobs, i, j) == a + b);
        assert forall|k: int| 0 <= k < (a + b).len() implies is_overlap_warning(
            jobs,
            #[trigger] (a + b)[k],
        ) by {
            if k < a.len() {
                assert((a + b)[k] == a[k]);
            } else {
                assert((a + b)[k] == overlap_warning(jobs, i, j - 1));
            }
        }
    }
}

proof fn lemma_overlap_issues(jobs: Seq<CronJobView>, k: int)
    requires
        k <= jobs.len(),
    ensures
        forall|m: int|
            0 <= m < overlap_issues(jobs, k).len() ==> is_overlap_warning(
                jobs,
                #[trigger] overlap_issues(jobs, k)[m],
            ),
    decreases k,
{
    if k > 0 {
        lemma_overlap_issues(jobs, k - 1);
        lemma_overlap_row(jobs, k - 1, jobs.len() as int);
        let a = overlap_issues(jobs, k - 1);
        let b = overlap_row(jobs, k - 1, jobs.len() as int);
        assert forall|m: int| 0 <= m < (a + b).len() implies is_overlap_warning(
            jobs,
            #[trigger] (a + b)[m],
        ) by {
            if m < a.len() {
                assert((a + b)[m] == a[m]);
            } else {
                assert((a + b)[m] == b[m - a.len()]);
            }
        }
    }
}

/// Every issue past the jobs' own issues warns of two jobs of one user
/// with one schedule: the earlier job, naming the later one's command.
pub proof fn lemma_overlaps_need_same_user_and_schedule(
    jobs: Seq<CronJobView>,
    states: Seq<PathState>,
)
    ensures
        forall|m: int|
            single_issues(jobs, states, jobs.len() as int).len() <= m < check_spec(jobs, states).len()
                ==> is_overlap_warning(jobs, #[trigger] check_spec(jobs, states)[m]),
{
    lemma_overlap_issues(jobs, jobs.len() as int);
    let a = single_issues(jobs, states, jobs.len() as int);
    let b = overlap_issues(jobs, jobs.len() as int);
    assert forall|m: int| a.len() <= m < check_spec(jobs, states).len() implies is_overlap_warning(
        jobs,
        #[trigger] check_spec(jobs, states)[m],
    ) by {
        assert(check_spec(jobs, states)[m] == b[m - a.len()]);
    }
}

/// Issue `x` is one of the own issues of one of the first `n` jobs.
pub open spec fn from_some_job(
    jobs: Seq<CronJobView>,
    states: Seq<PathState>,
    n: int,
    x: IssueView,
) -> bool {
    exists|k: int| 0 <= k < n && #[trigger] job_issues(jobs[k], state_at(states, k)).contains(x)
}

proof fn lemma_single_issues(jobs: Seq<CronJobView>, states: Seq<PathState>, n: int)
    requires
        0 <= n <= jobs.len(),
    ensures
        forall|k: int, i: int|
            0 <= k < n && 0 <= i < job_issues(jobs[k], state_at(states, k)).len()
                ==> single_issues(jobs, states, n).contains(
                #[trigger] job_issues(jobs[k], state_at(states, k))[i],
            ),
        forall|m: int|
            0 <= m < single_issues(jobs, states, n).len() ==> from_some_job(
                jobs,
                states,
                n,
                #[trigger] single_issues(jobs, states, n)[m],
            ),
    decreases n,
{
    if n > 0 {
        lemma_single_issues(jobs, states, n - 1);
        let a = single_issues(jobs, states, n - 1);
        let b = job_issues(jobs[n - 1], state_at(states, n - 1));
        assert(single_issues(jobs, states, n) == a + b);
        assert forall|k: int, i: int|
            0 <= k < n && 0 <= i < job_issues(jobs[k], state_at(states, k)).len() implies (a
            + b).contains(#[trigger] job_issues(jobs[k], state_at(states, k))[i]) by {
            if k == n - 1 {
                assert((a + b)[a.len() + i] == b[i]);
            } else {
                let x = job_issues(jobs[k], state_at(states, k))[i];
                assert(a.contains(x));
                let j = choose|j: int| 0 <= j < a.len() && a[j] == x;
                assert((a + b)[j] == x);
            }
        }
        assert forall|m: int|
            0 <= m < single_issues(jobs, states, n).len() implies from_some_job(
                jobs,
                states,
                n,
                #[trigger] single_issues(jobs, states, n)[m],
            ) by {
            if m < a.len() {
                assert((a + b)[m] == a[m]);
                assert(single_issues(jobs, states, n - 1)[m] == a[m]);
                assert(from_some_job(jobs, states, n - 1, a[m]));
                let k = choose|k: int|
                    0 <= k < n - 1 && #[trigger] job_issues(jobs[k], state_at(states, k)).contains(
                        a[m],
                    );
                assert(0 <= k < n && job_issues(jobs[k], state_at(states, k)).contains((a + b)[m]));
            } else {
                assert((a + b)[m] == b[m - a.len()]);
                assert(b.contains((a + b)[m]));
                assert(0 <= n - 1 < n && job_issues(jobs[n - 1], state_at(states, n - 1)).contains(
                    (a + b)[m],
                ));
            }
        }
    } else {
        assert(single_issues(jobs, states, n) =~= Seq::<IssueView>::empty());
    }
}

/// Each job's own issues (a missing or non-executable executable, a run
/// every minute, output that would be mailed) are all reported, and every
/// reported error is one of some job's own issues.
pub proof fn lemma_each_job_reported(jobs: Seq<CronJobView>, states: Seq<PathState>)
    requires
        states.len() == jobs.len(),
    ensures
        forall|k: int, i: int|
            0 <= k < jobs.len() && 0 <= i < job_issues(jobs[k], states[k]).len()
                ==> check_spec(jobs, states).contains(#[trigger] job_issues(jobs[k], states[k])[i]),
        forall|m: int|
            #![trigger check_spec(jobs, states)[m]]
            0 <= m < check_spec(jobs, states).len() && check_spec(jobs, states)[m].severity
                == Severity::Error ==> exists|k: int|
                0 <= k < jobs.len() && #[trigger] job_issues(jobs[k], states[k]).contains(
                    check_spec(jobs, states)[m],
                ),
{
    let n = jobs.len() as int;
    lemma_single_issues(jobs, states, n);
    lemma_overlap_issues(jobs, n);
    let a = single_issues(jobs, states, n);
    let b = overlap_issues(jobs, n);
    assert(check_spec(jobs, states) == a + b);
    assert forall|k: int, i: int|
        0 <= k < jobs.len() && 0 <= i < job_issues(jobs[k], states[k]).len() implies (a + b).contains(
        #[trigger] job_issues(jobs[k], states[k])[i],
    ) by {
        assert(state_at(states, k) == states[k]);
        let x = job_issues(jobs[k], state_at(states, k))[i];
        assert(a.contains(x));
        let j = choose|j: int| 0 <= j < a.len() && a[j] == x;
        assert((a + b)[j] == x);
    }
    assert forall|m: int|
        #![trigger (a + b)[m]]
        0 <= m < (a + b).len() && (a + b)[m].severity == Severity::Error implies exists|k: int|
        0 <= k < jobs.len() && #[trigger] job_issues(jobs[k], states[k]).contains((a + b)[m]) by {
        if m < a.len() {
            assert((a + b)[m] == a[m]);
            assert(from_some_job(jobs, states, n, a[m]));
            let k = choose|k: int|
                0 <= k < n && #[trigger] job_issues(jobs[k], state_at(states, k)).contains(a[m]);
            assert(state_at(states, k) == states[k]);
            assert(job_issues(jobs[k], states[k]).contains((a + b)[m]));
        } else {
            assert((a + b)[m] == b[m - a.len()]);
            assert(is_overlap_warning(jobs, b[m - a.len()]));
        }
    }
}

/// The exit code of `check`: 2 when issues were found, else 0.
pub fn check_exit_code(issues: &Vec<Issue>) -> (code: u8)
    ensures
        code == (if issues@.len() > 0 {
            2u8
        } else {
            0u8
        }),
{
    if issues.len() > 0 {
        2
    } else {
        0
    }
}

/// The number of errors and of warnings among issues.
pub open spec fn severity_count(issues: Seq<IssueView>, sev: Severity, k: int) -> nat
    decreases k,
{
    if k <= 0 || k > issues.len() {
        0
    } else {
        severity_count(issues, sev, k - 1) + if issues[k - 1].severity == sev {
            1nat
        } else {
            0nat
        }
    }
}

/// Counts the errors and the warnings among issues.
pub fn count_severities(issues: &Vec<Issue>) -> (r: (usize, usize))
    ensures
        r.0 == severity_count(issues.deep_view(), Severity::Error, issues@.len() as int),
        r.1 == severity_count(issues.deep_view(), Severity::Warning, issues@.len() as int),
{
    let ghost iv = issues.deep_view();
    let mut errors: usize = 0;
    let mut warnings: usize = 0;
    let mut k: usize = 0;
    while k < issues.len()
        invariant
            iv == issues.deep_view(),
            k <= issues@.len(),
            errors == severity_count(iv, Severity::Error, k as int),
            warnings == severity_count(iv, Severity::Warning, k as int),
            errors + warnings <= k,
        decreases issues@.len() - k,
    {
        assert(iv[k as int].severity == issues@[k as int].severity);
        match issues[k].severity {
            Severity::Error => errors = errors + 1,
            Severity::Warning => warnings = warnings + 1,
        }
        k = k + 1;
    }
    (errors, warnings)
}

/// Whether a file mode has an execute bit for its owner, its group or
/// others.
pub open spec fn has_execute_bit(mode: u32) -> bool {
    mode & 0o100 != 0 || mode & 0o010 != 0 || mode & 0o001 != 0
}

proof fn lemma_execute_bits(mode: u32)
    ensures
        (mode & 0o111 == 0) == !has_execute_bit(mode),
{
    assert((mode & 0o111 == 0) == !(mode & 0o100 != 0 || mode & 0o010 != 0 || mode & 0o001 != 0))
        by (bit_vector);
}

/// A regular file at a job's executable path is reported as not
/// executable exactly when none of its owner, group and other execute bits
/// is set (a file of mode 0o700 or 0o755 draws no report, one of mode 0o644
/// does), and never as missing; where the command has no such path, the
/// job draws no error at all.
pub proof fn lemma_regular_file_check(job: CronJobView, mode: u32)
    ensures
        match probed_path_spec(job.command) {
            Some(p) => {
                &&& job_issues(job, PathState::File { mode }).contains(
                    issue_of(job, Severity::Error, "file not executable: "@ + p),
                ) <==> !has_execute_bit(mode)
                &&& !job_issues(job, PathState::File { mode }).contains(
                    issue_of(job, Severity::Error, "executable not found: "@ + p),
                )
            },
            None => forall|i: int|
                0 <= i < job_issues(job, PathState::File { mode }).len() ==> (#[trigger] job_issues(
                    job,
                    PathState::File { mode },
                )[i]).severity == Severity::Warning,
        },
{
    lemma_execute_bits(mode);
    reveal_strlit("file not executable: ");
    reveal_strlit("executable not found: ");
    let st = PathState::File { mode };
    let ex = executable_issue(job, st);
    let w = every_minute_issue(job) + mailed_output_issue(job);
    let all = job_issues(job, st);
    assert(all =~= ex + w);
    assert forall|i: int| 0 <= i < w.len() implies (#[trigger] w[i]).severity == Severity::Warning by {
        if i < every_minute_issue(job).len() {
            assert(w[i] == every_minute_issue(job)[i]);
        } else {
            assert(w[i] == mailed_output_issue(job)[i - every_minute_issue(job).len()]);
        }
    }
    match probed_path_spec(job.command) {
        Some(p) => {
            let e1 = issue_of(job, Severity::Error, "file not executable: "@ + p);
            let e2 = issue_of(job, Severity::Error, "executable not found: "@ + p);
            assert(e1 != e2) by {
                assert(("file not executable: "@ + p)[0] != ("executable not found: "@ + p)[0]);
            }
            if all.contains(e1) {
                let i = choose|i: int| 0 <= i < all.len() && all[i] == e1;
                if i >= ex.len() {
                    assert(all[i] == w[i - ex.len()]);
                }
            }
            if !has_execute_bit(mode) {
                assert(all[0] == e1);
            }
            if all.contains(e2) {
                let i = choose|i: int| 0 <= i < all.len() && all[i] == e2;
                if i >= ex.len() {
                    assert(all[i] == w[i - ex.len()]);
                }
            }
        },
        None => {
            assert(ex.len() == 0);
            assert forall|i: int| 0 <= i < all.len() implies (#[trigger] all[i]).severity
                == Severity::Warning by {
                assert(all[i] == w[i]);
            }
        },
    }
}

proof fn lemma_row_has(jobs: Seq<CronJobView>, i: int, j: int, m: int)
    requires
        0 <= i < m < j <= jobs.len(),
        same_slot(jobs[i], jobs[m]),
    ensures
        overlap_row(jobs, i, j).contains(overlap_warning(jobs, i, m)),
    decreases j - i,
{
    let a = overlap_row(jobs, i, j - 1);
    let r = overlap_row(jobs, i, j);
    if m == j - 1 {
        assert(r[a.len() as int] == overlap_warning(jobs, i, m));
    } else {
        lemma_row_has(jobs, i, j - 1, m);
        let p = choose|p: int| 0 <= p < a.len() && a[p] == overlap_warning(jobs, i, m);
        assert(r[p] == a[p]);
    }
}

proof fn lemma_issues_have(jobs: Seq<CronJobView>, k: int, i: int, m: int)
    requires
        0 <= i < k <= jobs.len(),
        i < m < jobs.len(),
        same_slot(jobs[i], jobs[m]),
    ensures
        overlap_issues(jobs, k).contains(overlap_warning(jobs, i, m)),
    decreases k,
{
    let a = overlap_issues(jobs, k - 1);
    let b = overlap_row(jobs, k - 1, jobs.len() as int);
    assert(overlap_issues(jobs, k) == a + b);
    if i == k - 1 {
        lemma_row_has(jobs, i, jobs.len() as int, m);
        let p = choose|p: int| 0 <= p < b.len() && b[p] == overlap_warning(jobs, i, m);
        assert((a + b)[a.len() + p] == b[p]);
    } else {
        lemma_issues_have(jobs, k - 1, i, m);
        let p = choose|p: int| 0 <= p < a.len() && a[p] == overlap_warning(jobs, i, m);
        assert((a + b)[p] == a[p]);
    }
}

/// Two jobs of one user with one schedule are reported: the earlier one
/// draws a warning naming the later one's command (cut to 60 bytes); and
/// every warning past the jobs' own issues is such a warning, for two jobs
/// with equal schedules and equal users.
pub proof fn lemma_overlaps_reported(jobs: Seq<CronJobView>, states: Seq<PathState>)
    ensures
        forall|i: int, j: int|
            0 <= i < j < jobs.len() && jobs[i].schedule == jobs[j].schedule && jobs[i].user
                == jobs[j].user ==> check_spec(jobs, states).contains(
                issue_of(
                    #[trigger] jobs[i],
                    Severity::Warning,
                    "same schedule as another job: "@ + truncate_spec(#[trigger] jobs[j].command, 60),
                ),
            ),
        forall|m: int|
            single_issues(jobs, states, jobs.len() as int).len() <= m < check_spec(jobs, states).len()
                ==> exists|i: int, j: int|
                0 <= i < j < jobs.len() && jobs[i].schedule == jobs[j].schedule && jobs[i].user
                    == jobs[j].user && #[trigger] check_spec(jobs, states)[m] == issue_of(
                    jobs[i],
                    Severity::Warning,
                    "same schedule as another job: "@ + truncate_spec(jobs[j].command, 60),
                ),
{
    let n = jobs.len() as int;
    let a = single_issues(jobs, states, n);
    let b = overlap_issues(jobs, n);
    assert(check_spec(jobs, states) == a + b);
    assert forall|i: int, j: int|
        0 <= i < j < jobs.len() && jobs[i].schedule == jobs[j].schedule && jobs[i].user
            == jobs[j].user implies (a + b).contains(
        issue_of(
            #[trigger] jobs[i],
            Severity::Warning,
            "same schedule as another job: "@ + truncate_spec(#[trigger] jobs[j].command, 60),
        ),
    ) by {
        lemma_issues_have(jobs, n, i, j);
        let p = choose|p: int| 0 <= p < b.len() && b[p] == overlap_warning(jobs, i, j);
        assert((a + b)[a.len() + p] == b[p]);
    }
    lemma_overlaps_need_same_user_and_schedule(jobs, states);
}

/// The errors and warnings counted among issues make up all of them.
pub proof fn lemma_severity_counts(issues: Seq<IssueView>, k: int)
    requires
        0 <= k <= issues.len(),
    ensures
        severity_count(issues, Severity::Error, k) + severity_count(issues, Severity::Warning, k)
            == k,
    decreases k,
{
    if k > 0 {
        lemma_severity_counts(issues, k - 1);
    }
}

/// Cutting keeps a string of at most `max` bytes whole; a longer one
/// becomes its leading part of exactly `max` bytes, followed by `...`.
pub proof fn lemma_truncate_cuts(s: Seq<char>, max: nat)
    requires
        truncatable(s, max),
    ensures
        encode_utf8(s).len() <= max ==> truncate_spec(s, max) == s,
        encode_utf8(s).len() > max ==> exists|p: Seq<char>, q: Seq<char>|
            #![trigger p + q]
            s == p + q && q.len() > 0 && encode_utf8(p).len() == max && truncate_spec(s, max) == p
                + "..."@,
{
    let b = encode_utf8(s);
    if b.len() > max {
        vstd::utf8::encode_utf8_valid_utf8(s);
        vstd::utf8::decode_utf8_split(b, max as int);
        vstd::utf8::valid_utf8_split(b, max as int);
        let head = b.subrange(0, max as int);
        let rest = b.subrange(max as int, b.len() as int);
        let p = decode_utf8(head);
        let q = decode_utf8(rest);
        vstd::utf8::decode_utf8_encode_utf8(head);
        vstd::utf8::decode_utf8_encode_utf8(rest);
        assert(head =~= b.take(max as int));
        assert(s == p + q);
        assert(encode_utf8(q) == rest);
        if q.len() == 0 {
            assert(encode_utf8(q) =~= Seq::<u8>::empty()) by {
                assert(q =~= Seq::<char>::empty());
                vstd::utf8::encode_utf8_decode_utf8(q);
            }
        }
        assert(s == p + q && q.len() > 0 && encode_utf8(p).len() == max && truncate_spec(s, max)
            == p + "..."@);
    }
}

proof fn lemma_contains_gt(s: Seq<char>, p: Seq<char>)
    requires
        p.len() > 0,
        p[0] == '>' || p[1] == '>',
        p.len() > 1 || p[0] == '>',
        contains_seq(s, p),
    ensures
        s.contains('>'),
{
    let i = choose|i: int| 0 <= i && i + p.len() <= s.len() && #[trigger] s.subrange(i, i + p.len())
        == p;
    if p[0] == '>' {
        assert(s.subrange(i, i + p.len())[0] == s[i]);
    } else {
        assert(s.subrange(i, i + p.len())[1] == s[i + 1]);
    }
}

/// A job draws the every-minute warning exactly when its schedule is
/// `* * * * *` and its command has no `sleep`; and the mailed-output
/// warning exactly when its command has no `>` (so no redirection at all)
/// and no `logger`.  Neither depends on the file system.
pub proof fn lemma_job_warnings(job: CronJobView, state: PathState)
    ensures
        job_issues(job, state).contains(
            issue_of(job, Severity::Warning, "runs every minute — is this intentional?"@),
        ) <==> (job.schedule == "* * * * *"@ && !contains_seq(job.command, "sleep"@)),
        job_issues(job, state).contains(
            issue_of(job, Severity::Warning, "no output redirection — output will be mailed"@),
        ) <==> (!job.command.contains('>') && !contains_seq(job.command, "logger"@)),
{
    reveal_strlit("runs every minute — is this intentional?");
    reveal_strlit("no output redirection — output will be mailed");
    reveal_strlit(">/dev/null");
    reveal_strlit("2>&1");
    let w1 = issue_of(job, Severity::Warning, "runs every minute — is this intentional?"@);
    let w2 = issue_of(job, Severity::Warning, "no output redirection — output will be mailed"@);
    let ex = executable_issue(job, state);
    let m1 = every_minute_issue(job);
    let m2 = mailed_output_issue(job);
    let all = job_issues(job, state);
    assert(all =~= ex + m1 + m2);
    assert(w1 != w2) by {
        assert(w1.message[0] != w2.message[0]);
    }
    assert forall|i: int| 0 <= i < ex.len() implies (#[trigger] ex[i]).severity == Severity::Error by {
    }
    if contains_seq(job.command, ">/dev/null"@) {
        lemma_contains_gt(job.command, ">/dev/null"@);
    }
    if contains_seq(job.command, "2>&1"@) {
        lemma_contains_gt(job.command, "2>&1"@);
    }
    if all.contains(w1) {
        let i = choose|i: int| 0 <= i < all.len() && all[i] == w1;
        if i < ex.len() {
            assert(all[i] == ex[i]);
        } else if i < ex.len() + m1.len() {
            assert(all[i] == m1[i - ex.len()]);
        } else {
            assert(all[i] == m2[i - ex.len() - m1.len()]);
        }
    }
    if all.contains(w2) {
        let i = choose|i: int| 0 <= i < all.len() && all[i] == w2;
        if i < ex.len() {
            assert(all[i] == ex[i]);
        } else if i < ex.len() + m1.len() {
            assert(all[i] == m1[i - ex.len()]);
        } else {
            assert(all[i] == m2[i - ex.len() - m1.len()]);
        }
    }
    if m1.len() > 0 {
        assert(all[ex.len() as int] == w1);
    }
    if m2.len() > 0 {
        assert(all[(ex.len() + m1.len()) as int] == w2);
    }
}

/// A job whose executable path holds nothing is reported with that path
/// as not found; a path that holds something other than a regular file,
/// or a command without such a path, draws no error.
pub proof fn lemma_missing_file_check(job: CronJobView)
    ensures
        probed_path_spec(job.command) matches Some(p) ==> job_issues(job, PathState::Missing).contains(
            issue_of(job, Severity::Error, "executable not found: "@ + p),
        ),
        forall|i: int|
            0 <= i < job_issues(job, PathState::NotAFile).len() ==> (#[trigger] job_issues(
                job,
                PathState::NotAFile,
            )[i]).severity == Severity::Warning,
        probed_path_spec(job.command) is None ==> forall|i: int|
            0 <= i < job_issues(job, PathState::Missing).len() ==> (#[trigger] job_issues(
                job,
                PathState::Missing,
            )[i]).severity == Severity::Warning,
{
    let w = every_minute_issue(job) + mailed_output_issue(job);
    assert forall|i: int| 0 <= i < w.len() implies (#[trigger] w[i]).severity == Severity::Warning by {
        if i < every_minute_issue(job).len() {
            assert(w[i] == every_minute_issue(job)[i]);
        } else {
            assert(w[i] == mailed_output_issue(job)[i - every_minute_issue(job).len()]);
        }
    }
    assert(job_issues(job, PathState::NotAFile) =~= executable_issue(job, PathState::NotAFile) + w);
    assert(job_issues(job, PathState::Missing) =~= executable_issue(job, PathState::Missing) + w);
    if let Some(p) = probed_path_spec(job.command) {
        assert(job_issues(job, PathState::Missing)[0] == issue_of(
            job,
            Severity::Error,
            "executable not found: "@ + p,
        ));
    } else {
        assert(executable_issue(job, PathState::Missing).len() == 0);
        assert forall|i: int| 0 <= i < job_issues(job, PathState::Missing).len() implies (
        #[trigger] job_issues(job, PathState::Missing)[i]).severity == Severity::Warning by {
            assert(job_issues(job, PathState::Missing)[i] == w[i]);
        }
    }
    assert forall|i: int| 0 <= i < job_issues(job, PathState::NotAFile).len() implies (
    #[trigger] job_issues(job, PathState::NotAFile)[i]).severity == Severity::Warning by {
        assert(executable_issue(job, PathState::NotAFile).len() == 0);
        assert(job_issues(job, PathState::NotAFile)[i] == w[i]);
    }
}

} // verus!
