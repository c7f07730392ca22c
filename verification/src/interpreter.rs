//! The line-level command dispatcher: tokenizes statements and routes
//! `echo`, `set`, `exec`, `cat` and `setmod`. Output and diagnostics are
//! returned as lines; callers print them.
//!
//! The dispatcher's behavior is pinned by spec functions over the state
//! views: `dispatch_spec` for one statement, `run_line_from` for a
//! statement list, `run_job_from` for one job's lines, and `admit_from` /
//! `run_queue_m` for what an `exec` invocation admits, reports and runs.

use vstd::prelude::*;
use vstd::string::StringExecFns;
use crate::errors::KernelError;
use crate::job::{self, FileRead, ScriptFile};
use crate::kernel::{Kernel, Mode, SharedProgram};
use crate::shellmemory::{lookup, lookup_v, set_v, var_views, VarMemory};
use crate::text::{str_eq, tokenize, tokens};

verus! {

broadcast use vstd::string::group_string_axioms;

/// What a dispatched statement asks of the surrounding loop.
#[derive(Clone, Copy, Debug, PartialEq, Eq, Structural)]
pub enum DispatchResult {
    /// Go on with the next statement.
    Continue,
    /// Stop this statement list (an empty statement or a usage error).
    StopLine,
    /// A dispatcher failure: abort the rest of the running job.
    AbortJob,
}

/// Diagnostic for an unrecognized or malformed command.
pub fn bad_cmd(input: &str) -> (r: String)
    ensures
        r@ == "minsh: unrecognized command: "@ + input@,
{
    String::from_str("minsh: unrecognized command: ").concat(input)
}

/// Diagnostic prefix for reported errors.
pub fn err_msg(input: &str) -> (r: String)
    ensures
        r@ == "minsh: err: "@ + input@,
{
    String::from_str("minsh: err: ").concat(input)
}

/// `echo <VALUE>`: the named variable's value if one is stored, else the
/// literal token.
fn echo(var_mem: &VarMemory, input: &str) -> (out: String)
    requires
        var_mem.wf(),
    ensures
        match lookup(var_mem.var_mem@, input@) {
            Some(v) => out@ == v,
            None => out@ == input@,
        },
{
    match var_mem.get(input) {
        Some(val) => val,
        None => String::from_str(input),
    }
}

/// `set <VAR> <VALUE>`: store the pair in the first free variable slot.
fn set(var_mem: &mut VarMemory, key: &String, val: &String)
    requires
        old(var_mem).wf(),
    ensures
        final(var_mem).wf(),
        final(var_mem).size == old(var_mem).size,
        ({
            let i = crate::shellmemory::first_free(old(var_mem).var_mem@);
            if i < old(var_mem).var_mem@.len() {
                final(var_mem).var_mem@ == old(var_mem).var_mem@.update(
                    i,
                    crate::shellmemory::VarEntry { key: Some(*key), val: Some(*val) },
                )
            } else {
                *final(var_mem) == *old(var_mem)
            }
        }),
{
    var_mem.set(key.clone(), val.clone())
}

/// The index of the first file record from `i` on named `name`, or the
/// length.
pub open spec fn find_file_from(files: Seq<ScriptFile>, i: int, name: Seq<char>) -> int
    decreases files.len() - i,
{
    if i < 0 || i >= files.len() {
        files.len() as int
    } else if files[i].filename@ == name {
        i
    } else {
        find_file_from(files, i + 1, name)
    }
}

/// The index of the first file record named `name`, or the length.
pub open spec fn find_file(files: Seq<ScriptFile>, name: Seq<char>) -> int {
    find_file_from(files, 0, name)
}

/// Look a filename up in the file records handed in by the caller.
fn lookup_file<'a>(files: &'a Vec<ScriptFile>, name: &str) -> (r: Option<&'a ScriptFile>)
    ensures
        ({
            let i = find_file(files@, name@);
            match r {
                Some(f) => i < files@.len() && *f == files@[i],
                None => i == files@.len(),
            }
        }),
{
    let n = files.len();
    let mut i: usize = 0;
    while i < n
        invariant
            i <= n,
            n == files@.len(),
            find_file(files@, name@) == find_file_from(files@, i as int, name@),
        decreases n - i,
    {
        if str_eq(files[i].filename.as_str(), name) {
            return Some(&files[i]);
        }
        i += 1;
    }
    None
}

/// The diagnostic line for a file that could not be opened.
pub open spec fn open_fail_msg(name: Seq<char>) -> Seq<char> {
    "minsh: err: "@ + ("failed to open "@ + name)
}

/// The diagnostic line for a file that could not be read.
pub open spec fn read_fail_msg(name: Seq<char>) -> Seq<char> {
    "minsh: err: "@ + ("failed to read "@ + name)
}

/// The diagnostic line for an unrecognized or malformed command.
pub open spec fn bad_cmd_msg(input: Seq<char>) -> Seq<char> {
    "minsh: unrecognized command: "@ + input
}

/// The diagnostic line for an admission attempted inside a running job.
pub open spec fn exec_refused_msg() -> Seq<char> {
    "minsh: err: "@ + "exec is not available while a job is running"@
}

/// What `cat` produces for `name` against the given file records.
pub open spec fn cat_spec(files: Seq<ScriptFile>, name: Seq<char>) -> Seq<Seq<char>> {
    let i = find_file(files, name);
    if i < files.len() {
        match files[i].content {
            FileRead::Lines(ls) => ls.deep_view(),
            FileRead::OpenFailed => seq![open_fail_msg(name)],
            FileRead::ReadFailed(_) => seq![read_fail_msg(name)],
        }
    } else {
        seq![open_fail_msg(name)]
    }
}

/// What `echo` produces for `tok`: the stored value of the variable named
/// `tok`, else the literal token.
pub open spec fn echo_spec(
    vars: Seq<(Option<Seq<char>>, Option<Seq<char>>)>,
    tok: Seq<char>,
) -> Seq<char> {
    match lookup_v(vars, tok) {
        Some(v) => v,
        None => tok,
    }
}

/// What `setmod` does for label `m`: the new mode and the feedback line.
pub open spec fn setmod_spec(m: Seq<char>, cur: Mode) -> (Mode, Seq<char>) {
    if m == "FCFS"@ {
        (Mode::FCFS, "Scheduler running in FCFS"@)
    } else if m == "SJF"@ {
        (Mode::SJF, "Scheduler running in SJF"@)
    } else if m == "RR"@ {
        (Mode::RR, "Scheduler running in RR"@)
    } else {
        (cur, "minsh: err: "@ + ("unknown scheduler mode: "@ + m))
    }
}

/// The effect of dispatching one statement: the lines it emits, the
/// variable store and mode it leaves, and what it asks of the caller.
pub struct DispatchEffect {
    pub out: Seq<Seq<char>>,
    pub vars: Seq<(Option<Seq<char>>, Option<Seq<char>>)>,
    pub mode: Mode,
    pub result: DispatchResult,
}

/// The dispatcher, as a function of the statement and the state views: an
/// empty statement stops the list; `echo`, `set`, `cat` and `setmod` act
/// as their helpers do (a wrong arity emits a usage diagnostic and stops
/// the list); `exec` is a dispatcher failure; anything else is reported
/// and skipped.
pub open spec fn dispatch_spec(
    stmt: Seq<char>,
    vars: Seq<(Option<Seq<char>>, Option<Seq<char>>)>,
    mode: Mode,
    files: Seq<ScriptFile>,
) -> DispatchEffect {
    let toks = tokens(stmt);
    if toks.len() == 0 {
        DispatchEffect { out: Seq::empty(), vars, mode, result: DispatchResult::StopLine }
    } else if toks[0] == "echo"@ {
        if toks.len() != 2 {
            DispatchEffect {
                out: seq![bad_cmd_msg(stmt)],
                vars,
                mode,
                result: DispatchResult::StopLine,
            }
        } else {
            DispatchEffect {
                out: seq![echo_spec(vars, toks[1])],
                vars,
                mode,
                result: DispatchResult::Continue,
            }
        }
    } else if toks[0] == "set"@ {
        if toks.len() < 3 {
            DispatchEffect {
                out: seq![bad_cmd_msg("usage: set <VAR> <VALUE>"@)],
                vars,
                mode,
                result: DispatchResult::StopLine,
            }
        } else {
            DispatchEffect {
                out: Seq::empty(),
                vars: set_v(vars, toks[1], toks[2]),
                mode,
                result: DispatchResult::Continue,
            }
        }
    } else if toks[0] == "cat"@ {
        if toks.len() < 2 {
            DispatchEffect {
                out: seq![bad_cmd_msg("usage: cat <FILENAME>"@)],
                vars,
                mode,
                result: DispatchResult::StopLine,
            }
        } else {
            DispatchEffect {
                out: cat_spec(files, toks[1]),
                vars,
                mode,
                result: DispatchResult::Continue,
            }
        }
    } else if toks[0] == "setmod"@ {
        if toks.len() < 2 {
            DispatchEffect {
                out: seq![bad_cmd_msg("usage: setmod <FCFS, RR, SJF>"@)],
                vars,
                mode,
                result: DispatchResult::StopLine,
            }
        } else {
            DispatchEffect {
                out: seq![setmod_spec(toks[1], mode).1],
                vars,
                mode: setmod_spec(toks[1], mode).0,
                result: DispatchResult::Continue,
            }
        }
    } else if toks[0] == "exec"@ {
        DispatchEffect {
            out: seq![exec_refused_msg()],
            vars,
            mode,
            result: DispatchResult::AbortJob,
        }
    } else {
        DispatchEffect {
            out: seq![bad_cmd_msg(stmt)],
            vars,
            mode,
            result: DispatchResult::Continue,
        }
    }
}

/// `cat <FILENAME>`: the file's lines, or a single-line diagnostic when it
/// cannot be opened or read.
fn cat(filename: &str, files: &Vec<ScriptFile>) -> (out: Vec<String>)
    ensures
        ({
            let i = find_file(files@, filename@);
            if i < files@.len() {
                match files@[i].content {
                    FileRead::Lines(ls) => out.deep_view() == ls.deep_view(),
                    FileRead::OpenFailed => out.deep_view() == seq![open_fail_msg(filename@)],
                    FileRead::ReadFailed(_) => out.deep_view() == seq![read_fail_msg(filename@)],
                }
            } else {
                out.deep_view() == seq![open_fail_msg(filename@)]
            }
        }),
{
    let mut out: Vec<String> = Vec::new();
    match lookup_file(files, filename) {
        Some(f) => {
            match &f.content {
                FileRead::Lines(ls) => {
                    let n = ls.len();
                    let mut i: usize = 0;
                    while i < n
                        invariant
                            i <= n,
                            n == ls@.len(),
                            out.deep_view() =~= ls.deep_view().take(i as int),
                        decreases n - i,
                    {
                        let ghost pre = out.deep_view();
                        out.push(ls[i].clone());
                        proof {
                            assert(out.deep_view() =~= pre.push(ls@[i as int]@));
                            assert(out.deep_view() =~= ls.deep_view().take(i as int + 1));
                        }
                        i += 1;
                    }
                    proof {
                        assert(out.deep_view() =~= ls.deep_view());
                    }
                },
                FileRead::OpenFailed => {
                    out.push(err_msg(String::from_str("failed to open ").concat(filename).as_str()));
                    proof {
                        assert(out.deep_view() =~= seq![open_fail_msg(filename@)]);
                    }
                },
                FileRead::ReadFailed(_) => {
                    out.push(err_msg(String::from_str("failed to read ").concat(filename).as_str()));
                    proof {
                        assert(out.deep_view() =~= seq![read_fail_msg(filename@)]);
                    }
                },
            }
        },
        None => {
            out.push(err_msg(String::from_str("failed to open ").concat(filename).as_str()));
            proof {
                assert(out.deep_view() =~= seq![open_fail_msg(filename@)]);
            }
        },
    }
    out
}

/// `setmod <FCFS|RR|SJF>`: relabel the scheduler mode; an unknown label is
/// reported and changes nothing.
fn setmod(mode: &str, kernel: &mut Kernel) -> (out: String)
    ensures
        *final(kernel) == (Kernel { mode: final(kernel).mode, ..*old(kernel) }),
        final(kernel).mode == setmod_spec(mode@, old(kernel).mode).0,
        out@ == setmod_spec(mode@, old(kernel).mode).1,
{
    proof {
        reveal_strlit("FCFS");
        reveal_strlit("SJF");
        reveal_strlit("RR");
        assert("FCFS"@.len() == 4);
        assert("SJF"@.len() == 3);
        assert("RR"@.len() == 2);
    }
    if str_eq(mode, "FCFS") {
        kernel.mode = Mode::FCFS;
        String::from_str("Scheduler running in FCFS")
    } else if str_eq(mode, "SJF") {
        kernel.mode = Mode::SJF;
        String::from_str("Scheduler running in SJF")
    } else if str_eq(mode, "RR") {
        kernel.mode = Mode::RR;
        String::from_str("Scheduler running in RR")
    } else {
        err_msg(String::from_str("unknown scheduler mode: ").concat(mode).as_str())
    }
}

/// The diagnostic line for an admission rejected for want of frames.
pub open spec fn oom_msg(name: Seq<char>) -> Seq<char> {
    "minsh: err: "@ + ("out of memory admitting "@ + name)
}

/// The diagnostic line for an exhausted pid counter.
pub open spec fn pid_exhausted_msg() -> Seq<char> {
    "minsh: err: "@ + "pid space exhausted"@
}

/// The diagnostic line for an inconsistent sharing-path admission.
pub open spec fn illegal_state_msg() -> Seq<char> {
    "minsh: err: "@ + "illegal kernel state"@
}

/// The diagnostic line for a schedule call with nothing queued.
pub open spec fn no_job_msg() -> Seq<char> {
    "minsh: err: "@ + "No job to execute"@
}

/// Admission bookkeeping: the report lines emitted so far, the filename,
/// line count and arena slot of each queued job, the number of free
/// frames, the arena length, and the pid counter.
pub struct AdmitState {
    pub reports: Seq<Seq<char>>,
    pub queued: Seq<(Seq<char>, int, int)>,
    pub free: int,
    pub progs_len: int,
    pub next_pid: int,
}

/// The queued jobs as the admission bookkeeping sees them.
pub open spec fn queued_model(q: Seq<crate::job::Job>) -> Seq<(Seq<char>, int, int)> {
    q.map_values(|j: crate::job::Job| (j.filename@, j.size as int, j.prog_id as int))
}

/// The index of the first queue entry named `name` from `i` on, or the
/// length.
pub open spec fn first_queued_m_from(
    q: Seq<(Seq<char>, int, int)>,
    i: int,
    name: Seq<char>,
) -> int
    decreases q.len() - i,
{
    if i < 0 || i >= q.len() {
        q.len() as int
    } else if q[i].0 == name {
        i
    } else {
        first_queued_m_from(q, i + 1, name)
    }
}

/// The index of the first queue entry named `name`, or the length.
pub open spec fn first_queued_m(q: Seq<(Seq<char>, int, int)>, name: Seq<char>) -> int {
    first_queued_m_from(q, 0, name)
}

/// How many queue entries are named `name`.
pub open spec fn count_queued_m(q: Seq<(Seq<char>, int, int)>, name: Seq<char>) -> nat
    decreases q.len(),
{
    if q.len() == 0 {
        0
    } else {
        (if q[0].0 == name {
            1nat
        } else {
            0nat
        }) + count_queued_m(q.drop_first(), name)
    }
}

/// What admitting one filename does to the admission state: a duplicate
/// shares the first queued image of that name, a fresh filename loads its
/// file if it read and enough frames are free, and every failure adds one
/// report line and changes nothing else.
pub open spec fn admit_one(st: AdmitState, name: Seq<char>, files: Seq<ScriptFile>) -> AdmitState {
    if st.next_pid == i64::MAX as int {
        AdmitState { reports: st.reports.push(pid_exhausted_msg()), ..st }
    } else if first_queued_m(st.queued, name) < st.queued.len() {
        if count_queued_m(st.queued, name) == usize::MAX as nat {
            AdmitState { reports: st.reports.push(illegal_state_msg()), ..st }
        } else {
            AdmitState {
                queued: st.queued.push(
                    (
                        name,
                        st.queued[first_queued_m(st.queued, name)].1,
                        st.queued[first_queued_m(st.queued, name)].2,
                    ),
                ),
                next_pid: st.next_pid + 1,
                ..st
            }
        }
    } else {
        let fi = find_file(files, name);
        if fi >= files.len() {
            AdmitState { reports: st.reports.push(open_fail_msg(name)), ..st }
        } else {
            match files[fi].content {
                FileRead::OpenFailed => AdmitState {
                    reports: st.reports.push(open_fail_msg(name)),
                    ..st
                },
                FileRead::ReadFailed(_) => AdmitState {
                    reports: st.reports.push(read_fail_msg(name)),
                    ..st
                },
                FileRead::Lines(ls) => {
                    if crate::job::frames_needed(ls@.len() as int) > st.free {
                        AdmitState { reports: st.reports.push(oom_msg(name)), ..st }
                    } else {
                        AdmitState {
                            queued: st.queued.push((name, ls@.len() as int, st.progs_len)),
                            free: st.free - crate::job::frames_needed(ls@.len() as int),
                            progs_len: st.progs_len + 1,
                            next_pid: st.next_pid + 1,
                            ..st
                        }
                    }
                },
            }
        }
    }
}

/// Fold `admit_one` over the filenames from `i` on.
pub open spec fn admit_from(
    names: Seq<Seq<char>>,
    i: int,
    st: AdmitState,
    files: Seq<ScriptFile>,
) -> AdmitState
    decreases names.len() - i,
{
    if i < 0 || i >= names.len() {
        st
    } else {
        admit_from(names, i + 1, admit_one(st, names[i], files), files)
    }
}

/// The queue-model index of the first job named `name` equals the queue's.
pub proof fn lemma_first_queued_model(q: Seq<crate::job::Job>, i: int, name: Seq<char>)
    ensures
        first_queued_m_from(queued_model(q), i, name) == crate::job::first_queued_from(
            q,
            i,
            name,
        ),
    decreases q.len() - i,
{
    if 0 <= i < q.len() {
        assert(queued_model(q)[i] == (q[i].filename@, q[i].size as int, q[i].prog_id as int));
        lemma_first_queued_model(q, i + 1, name);
    }
}

/// With every job named `name` referencing slot `sid` and conversely, the
/// name count equals the slot's reference count.
pub proof fn lemma_count_name_refs(q: Seq<crate::job::Job>, sid: int, name: Seq<char>)
    requires
        forall|i: int|
            0 <= i < q.len() ==> (((#[trigger] q[i]).filename@ == name) <==> (q[i].prog_id
                == sid)),
    ensures
        count_queued_m(queued_model(q), name) == crate::kernel::count_refs(q, sid),
    decreases q.len(),
{
    if q.len() > 0 {
        assert(queued_model(q)[0] == (q[0].filename@, q[0].size as int, q[0].prog_id as int));
        assert(queued_model(q).drop_first() =~= queued_model(q.drop_first()));
        assert(forall|i: int|
            0 <= i < q.drop_first().len() ==> (((#[trigger] q.drop_first()[i]).filename@ == name)
                <==> (q.drop_first()[i].prog_id == sid)));
        lemma_count_name_refs(q.drop_first(), sid, name);
    }
}

/// Drain the modeled queue front to back, exactly as `run_queue` drains
/// the real one: each entry runs `run_job_from` over its slot's page
/// table, threading the variable store and mode.
pub open spec fn run_queue_m(
    entries: Seq<(Seq<char>, int, int)>,
    progs: Seq<crate::job::Program>,
    mem: Seq<Seq<char>>,
    vars: Seq<(Option<Seq<char>>, Option<Seq<char>>)>,
    mode: Mode,
    files: Seq<ScriptFile>,
) -> crate::kernel::QueueEffect
    decreases entries.len(),
{
    if entries.len() == 0 {
        crate::kernel::QueueEffect { out: Seq::empty(), vars, mode }
    } else {
        let e = entries[0];
        let jf = run_job_from(mem, progs[e.2].page_table@, 0, e.1, vars, mode, files);
        let rest = run_queue_m(entries.drop_first(), progs, mem, jf.vars, jf.mode, files);
        crate::kernel::QueueEffect { out: jf.out + rest.out, vars: rest.vars, mode: rest.mode }
    }
}

/// The real queue and its model drain to the same effect.
pub proof fn lemma_run_queue_model(
    q: Seq<crate::job::Job>,
    progs: Seq<crate::job::Program>,
    mem: Seq<Seq<char>>,
    vars: Seq<(Option<Seq<char>>, Option<Seq<char>>)>,
    mode: Mode,
    files: Seq<ScriptFile>,
)
    ensures
        crate::kernel::run_queue(q, progs, mem, vars, mode, files) == run_queue_m(
            queued_model(q),
            progs,
            mem,
            vars,
            mode,
            files,
        ),
    decreases q.len(),
{
    if q.len() > 0 {
        assert(queued_model(q)[0] == (q[0].filename@, q[0].size as int, q[0].prog_id as int));
        assert(queued_model(q).drop_first() =~= queued_model(q.drop_first()));
        let jf = run_job_from(
            mem,
            progs[q[0].prog_id as int].page_table@,
            0,
            q[0].size as int,
            vars,
            mode,
            files,
        );
        lemma_run_queue_model(q.drop_first(), progs, mem, jf.vars, jf.mode, files);
    }
}

/// The effect of running the statements of one line from index `i` on:
/// what they emit, the state they leave, and whether a dispatcher failure
/// aborts the job.
pub struct LineEffect {
    pub out: Seq<Seq<char>>,
    pub vars: Seq<(Option<Seq<char>>, Option<Seq<char>>)>,
    pub mode: Mode,
    pub aborted: bool,
}

/// Run the statements `stmts[i..]` in order: each statement's effect is
/// `dispatch_spec`; a `StopLine` ends the line, an `AbortJob` ends it and
/// marks the job aborted.
pub open spec fn run_line_from(
    stmts: Seq<Seq<char>>,
    i: int,
    vars: Seq<(Option<Seq<char>>, Option<Seq<char>>)>,
    mode: Mode,
    files: Seq<ScriptFile>,
) -> LineEffect
    decreases stmts.len() - i,
{
    if i < 0 || i >= stmts.len() {
        LineEffect { out: Seq::empty(), vars, mode, aborted: false }
    } else {
        let step = dispatch_spec(stmts[i], vars, mode, files);
        if step.result == DispatchResult::Continue {
            let rest = run_line_from(stmts, i + 1, step.vars, step.mode, files);
            LineEffect {
                out: step.out + rest.out,
                vars: rest.vars,
                mode: rest.mode,
                aborted: rest.aborted,
            }
        } else {
            LineEffect {
                out: step.out,
                vars: step.vars,
                mode: step.mode,
                aborted: step.result == DispatchResult::AbortJob,
            }
        }
    }
}

/// The effect of one job's run: what it emits, the state it leaves, the
/// line its program counter stopped at, and whether it was aborted.
pub struct JobEffect {
    pub out: Seq<Seq<char>>,
    pub vars: Seq<(Option<Seq<char>>, Option<Seq<char>>)>,
    pub mode: Mode,
    pub stop: int,
    pub aborted: bool,
}

/// Run a job's logical lines `pc..size`: each line is fetched from the
/// slot `line_addr(pt, pc)`, split at statement separators, and run; an
/// aborted line ends the job at that line, otherwise the counter reaches
/// `size`.
pub open spec fn run_job_from(
    mem: Seq<Seq<char>>,
    pt: Seq<usize>,
    pc: int,
    size: int,
    vars: Seq<(Option<Seq<char>>, Option<Seq<char>>)>,
    mode: Mode,
    files: Seq<ScriptFile>,
) -> JobEffect
    decreases size - pc,
{
    if pc < 0 || pc >= size {
        JobEffect { out: Seq::empty(), vars, mode, stop: pc, aborted: false }
    } else {
        let le = run_line_from(
            crate::text::split_semi(mem[crate::job::line_addr(pt, pc)]),
            0,
            vars,
            mode,
            files,
        );
        if le.aborted {
            JobEffect { out: le.out, vars: le.vars, mode: le.mode, stop: pc, aborted: true }
        } else {
            let rest = run_job_from(mem, pt, pc + 1, size, le.vars, le.mode, files);
            JobEffect {
                out: le.out + rest.out,
                vars: rest.vars,
                mode: rest.mode,
                stop: rest.stop,
                aborted: rest.aborted,
            }
        }
    }
}

/// Dispatch one statement (already split off its statement list): tokenize
/// it and route the command, exactly as `dispatch_spec` says. Only the
/// variable memory and the scheduler mode can change; the queue, the
/// arena, both program memories and the pid counter stay as they are. An
/// admission (`exec`) inside a running statement is a dispatcher failure.
pub fn dispatch_statement(
    arg: &str,
    kern: &mut Kernel,
    files: &Vec<ScriptFile>,
    out: &mut Vec<String>,
) -> (r: DispatchResult)
    requires
        old(kern).var_memory.wf(),
    ensures
        final(kern).var_memory.wf(),
        final(kern).job_queue@ == old(kern).job_queue@,
        final(kern).programs@ == old(kern).programs@,
        final(kern).frame_table == old(kern).frame_table,
        final(kern).prog_memory == old(kern).prog_memory,
        final(kern).next_pid == old(kern).next_pid,
        ({
            let eff = dispatch_spec(
                arg@,
                var_views(old(kern).var_memory.var_mem@),
                old(kern).mode,
                files@,
            );
            &&& r == eff.result
            &&& final(out).deep_view() == old(out).deep_view() + eff.out
            &&& var_views(final(kern).var_memory.var_mem@) == eff.vars
            &&& final(kern).mode == eff.mode
        }),
{
    let ghost v0 = var_views(old(kern).var_memory.var_mem@);
    let ghost m0 = old(kern).mode;
    let ghost eff = dispatch_spec(arg@, v0, m0, files@);
    let ghost out0 = out.deep_view();
    let toks = tokenize(arg);
    proof {
        assert(toks.deep_view() == tokens(arg@));
        assert forall|i: int| 0 <= i < toks@.len() implies toks.deep_view()[i] == (
        #[trigger] toks@[i])@ by {}
    }
    if toks.len() == 0 {
        proof {
            assert(out.deep_view() =~= out0 + eff.out);
        }
        return DispatchResult::StopLine;
    }
    let cmd = &toks[0];
    proof {
        assert(cmd@ == tokens(arg@)[0]);
    }
    if str_eq(cmd.as_str(), "echo") {
        if toks.len() != 2 {
            out.push(bad_cmd(arg));
            proof {
                assert(out.deep_view() =~= out0 + eff.out);
            }
            return DispatchResult::StopLine;
        }
        let line = echo(&kern.var_memory, toks[1].as_str());
        proof {
            crate::shellmemory::lemma_lookup_views(
                old(kern).var_memory.var_mem@,
                0,
                tokens(arg@)[1],
            );
            assert(line@ == echo_spec(v0, tokens(arg@)[1]));
        }
        out.push(line);
        proof {
            assert(out.deep_view() =~= out0 + eff.out);
        }
        DispatchResult::Continue
    } else if str_eq(cmd.as_str(), "set") {
        if toks.len() < 3 {
            out.push(bad_cmd("usage: set <VAR> <VALUE>"));
            proof {
                assert(out.deep_view() =~= out0 + eff.out);
            }
            return DispatchResult::StopLine;
        }
        set(&mut kern.var_memory, &toks[1], &toks[2]);
        proof {
            let pre = old(kern).var_memory.var_mem@;
            crate::shellmemory::lemma_first_free_views(pre, 0);
            crate::shellmemory::lemma_first_free_bounds(pre, 0);
            let i = crate::shellmemory::first_free(pre);
            let e = crate::shellmemory::VarEntry { key: Some(toks@[1]), val: Some(toks@[2]) };
            assert(tokens(arg@)[1] == toks@[1]@);
            assert(tokens(arg@)[2] == toks@[2]@);
            if i < pre.len() {
                crate::shellmemory::lemma_var_views_update(pre, i, e);
                assert(kern.var_memory.var_mem@ == pre.update(i, e));
                assert(crate::shellmemory::slot_view(e) == (
                    Some(toks@[1]@),
                    Some(toks@[2]@),
                ));
                assert(var_views(kern.var_memory.var_mem@) == var_views(pre).update(
                    i,
                    crate::shellmemory::slot_view(e),
                ));
            }
            assert(var_views(kern.var_memory.var_mem@) == set_v(
                v0,
                tokens(arg@)[1],
                tokens(arg@)[2],
            ));
            assert(out.deep_view() =~= out0 + eff.out);
        }
        DispatchResult::Continue
    } else if str_eq(cmd.as_str(), "cat") {
        if toks.len() < 2 {
            out.push(bad_cmd("usage: cat <FILENAME>"));
            proof {
                assert(out.deep_view() =~= out0 + eff.out);
            }
            return DispatchResult::StopLine;
        }
        let mut lines = cat(toks[1].as_str(), files);
        proof {
            assert(lines.deep_view() == cat_spec(files@, tokens(arg@)[1]));
        }
        out.append(&mut lines);
        proof {
            assert(out.deep_view() =~= out0 + eff.out);
        }
        DispatchResult::Continue
    } else if str_eq(cmd.as_str(), "setmod") {
        if toks.len() < 2 {
            out.push(bad_cmd("usage: setmod <FCFS, RR, SJF>"));
            proof {
                assert(out.deep_view() =~= out0 + eff.out);
            }
            return DispatchResult::StopLine;
        }
        let line = setmod(toks[1].as_str(), kern);
        out.push(line);
        proof {
            assert(out.deep_view() =~= out0 + eff.out);
        }
        DispatchResult::Continue
    } else if str_eq(cmd.as_str(), "exec") {
        // Deliberate simplification: a running script admitting further
        // scripts would re-enter the scheduler with no termination bound
        // (two scripts can admit each other forever), so admission from a
        // running job is refused as a dispatcher failure and the job is
        // cut short. Top-level admission goes through `exec` instead.
        out.push(err_msg("exec is not available while a job is running"));
        proof {
            assert(out.deep_view() =~= out0 + eff.out);
        }
        DispatchResult::AbortJob
    } else {
        out.push(bad_cmd(arg));
        proof {
            assert(out.deep_view() =~= out0 + eff.out);
        }
        DispatchResult::Continue
    }
}

/// `exec <FILENAMES...>`: admit each filename in turn — loading its script
/// or sharing an already-live image — reporting each failing filename
/// without stopping the rest, exactly as the `admit_from` bookkeeping
/// says, then run the schedule to completion. When it returns, the queue
/// is empty, every frame is free again, the report lines stand first in
/// admission order, and the pid counter advanced once per admitted job.
pub fn exec(filenames: &Vec<String>, kern: &mut Kernel, files: &Vec<ScriptFile>) -> (out: Vec<
    String,
>)
    requires
        old(kern).wf(),
    ensures
        final(kern).wf(),
        final(kern).job_queue@.len() == 0,
        forall|j: int|
            0 <= j < final(kern).frame_table.frames@.len() ==> !(
            #[trigger] final(kern).frame_table.frames@[j]).valid,
        final(kern).prog_memory.size == old(kern).prog_memory.size,
        old(kern).next_pid <= final(kern).next_pid,
        ({
            let ad = admit_from(
                filenames.deep_view(),
                0,
                AdmitState {
                    reports: Seq::empty(),
                    queued: queued_model(old(kern).job_queue@),
                    free: old(kern).frame_table.free_count() as int,
                    progs_len: old(kern).programs@.len() as int,
                    next_pid: old(kern).next_pid as int,
                },
                files@,
            );
            &&& final(kern).next_pid == ad.next_pid
            &&& (ad.queued.len() == 0 ==> out.deep_view() == ad.reports.push(no_job_msg()))
            &&& (ad.queued.len() > 0 ==> ({
                let qe = run_queue_m(
                    ad.queued,
                    final(kern).programs@.map_values(|sp: SharedProgram| sp.program),
                    final(kern).prog_memory@,
                    var_views(old(kern).var_memory.var_mem@),
                    old(kern).mode,
                    files@,
                );
                &&& out.deep_view() == ad.reports + qe.out
                &&& var_views(final(kern).var_memory.var_mem@) == qe.vars
                &&& final(kern).mode == qe.mode
            }))
        }),
{
    let mut out: Vec<String> = Vec::new();
    let n = filenames.len();
    let mut fi: usize = 0;
    let ghost fnv = filenames.deep_view();
    let ghost st0 = AdmitState {
        reports: Seq::empty(),
        queued: queued_model(old(kern).job_queue@),
        free: old(kern).frame_table.free_count() as int,
        progs_len: old(kern).programs@.len() as int,
        next_pid: old(kern).next_pid as int,
    };
    let ghost ad = admit_from(fnv, 0, st0, files@);
    proof {
        assert(out.deep_view() =~= Seq::<Seq<char>>::empty());
    }
    while fi < n
        invariant
            kern.wf(),
            n == filenames@.len(),
            fi <= n,
            fnv == filenames.deep_view(),
            old(kern).next_pid <= kern.next_pid,
            kern.prog_memory.size == old(kern).prog_memory.size,
            kern.var_memory == old(kern).var_memory,
            kern.mode == old(kern).mode,
            ad == admit_from(
                fnv,
                fi as int,
                AdmitState {
                    reports: out.deep_view(),
                    queued: queued_model(kern.job_queue@),
                    free: kern.frame_table.free_count() as int,
                    progs_len: kern.programs@.len() as int,
                    next_pid: kern.next_pid as int,
                },
                files@,
            ),
        decreases n - fi,
    {
        let ghost cur = AdmitState {
            reports: out.deep_view(),
            queued: queued_model(kern.job_queue@),
            free: kern.frame_table.free_count() as int,
            progs_len: kern.programs@.len() as int,
            next_pid: kern.next_pid as int,
        };
        let file = &filenames[fi];
        let ghost name = fnv[fi as int];
        proof {
            assert(name == file@);
        }
        if kern.next_pid == i64::MAX {
            out.push(err_msg("pid space exhausted"));
            proof {
                assert(out.deep_view() =~= cur.reports.push(pid_exhausted_msg()));
                assert(admit_one(cur, name, files@) == (AdmitState {
                    reports: out.deep_view(),
                    ..cur
                }));
            }
            fi += 1;
            continue ;
        }
        proof {
            crate::job::lemma_first_queued_char(kern.job_queue@, 0, name);
            lemma_first_queued_model(kern.job_queue@, 0, name);
            if kern.queued_filename(name) {
                let w = choose|w: int|
                    0 <= w < kern.job_queue@.len() && (#[trigger] kern.job_queue@[w]).filename@
                        == name;
                assert(crate::job::first_queued(kern.job_queue@, name)
                    < kern.job_queue@.len());
            }
        }
        let ghost pre_kern = *kern;
        let prog_res = match lookup_file(files, file.as_str()) {
            Some(sf) => job::Program::new(kern, file.as_str(), &sf.content),
            None => {
                let missing = FileRead::OpenFailed;
                job::Program::new(kern, file.as_str(), &missing)
            },
        };
        match prog_res {
            Ok(p) => {
                proof {
                    assert(find_file(files@, name) < files@.len());
                    assert(files@[find_file(files@, name)].content matches FileRead::Lines(_));
                }
                let psize = p.size;
                let jr = job::Job::new(Some(psize), file.clone(), Some(p), kern);
                match jr {
                    Ok(j) => {
                        proof {
                            assert(j.prog_id as int == cur.progs_len);
                        }
                        kern.queue_job(j);
                        proof {
                            assert(queued_model(kern.job_queue@) =~= cur.queued.push(
                                (name, j.size as int, j.prog_id as int),
                            ));
                            assert(admit_one(cur, name, files@) == (AdmitState {
                                queued: queued_model(kern.job_queue@),
                                free: kern.frame_table.free_count() as int,
                                progs_len: kern.programs@.len() as int,
                                next_pid: kern.next_pid as int,
                                ..cur
                            }));
                        }
                    },
                    Err(_) => {
                        proof {
                            assert(false);
                        }
                    },
                }
            },
            Err(e) => {
                match e {
                    KernelError::AlreadyLoaded => {
                        proof {
                            assert(first_queued_m(cur.queued, name) < cur.queued.len());
                            let sid = kern.job_queue@[crate::job::first_queued(
                                kern.job_queue@,
                                name,
                            )].prog_id as int;
                            assert(kern.job_ok(kern.job_queue@[crate::job::first_queued(
                                kern.job_queue@,
                                name,
                            )]));
                            assert forall|i2: int|
                                0 <= i2 < kern.job_queue@.len() implies (((
                            #[trigger] kern.job_queue@[i2]).filename@ == name) <==> (
                            kern.job_queue@[i2].prog_id == sid)) by {
                                assert(kern.job_ok(kern.job_queue@[i2]));
                                crate::kernel::lemma_count_refs_at(
                                    kern.job_queue@,
                                    i2,
                                    kern.job_queue@[i2].prog_id as int,
                                );
                                crate::kernel::lemma_count_refs_at(
                                    kern.job_queue@,
                                    crate::job::first_queued(kern.job_queue@, name),
                                    sid,
                                );
                                assert(kern.live(kern.job_queue@[i2].prog_id as int));
                                assert(kern.live(sid));
                            }
                            lemma_count_name_refs(kern.job_queue@, sid, name);
                        }
                        let jr = job::Job::new(None, file.clone(), None, kern);
                        match jr {
                            Ok(j) => {
                                kern.queue_job(j);
                                proof {
                                    assert(j.size as int == cur.queued[first_queued_m(
                                        cur.queued,
                                        name,
                                    )].1);
                                    assert(j.prog_id as int == cur.queued[first_queued_m(
                                        cur.queued,
                                        name,
                                    )].2);
                                    assert(queued_model(kern.job_queue@) =~= cur.queued.push(
                                        (name, j.size as int, j.prog_id as int),
                                    ));
                                    assert(count_queued_m(cur.queued, name) != usize::MAX
                                        as nat);
                                    assert(admit_one(cur, name, files@) == (AdmitState {
                                        queued: queued_model(kern.job_queue@),
                                        next_pid: kern.next_pid as int,
                                        ..cur
                                    }));
                                }
                            },
                            Err(_) => {
                                out.push(err_msg("illegal kernel state"));
                                proof {
                                    assert(count_queued_m(cur.queued, name) == usize::MAX
                                        as nat);
                                    assert(out.deep_view() =~= cur.reports.push(
                                        illegal_state_msg(),
                                    ));
                                    assert(admit_one(cur, name, files@) == (AdmitState {
                                        reports: out.deep_view(),
                                        ..cur
                                    }));
                                }
                            },
                        }
                    },
                    KernelError::OpenError => {
                        out.push(
                            err_msg(String::from_str("failed to open ").concat(file.as_str()).as_str()),
                        );
                        proof {
                            assert(out.deep_view() =~= cur.reports.push(open_fail_msg(name)));
                            assert(admit_one(cur, name, files@) == (AdmitState {
                                reports: out.deep_view(),
                                ..cur
                            }));
                        }
                    },
                    KernelError::ReadError(_) => {
                        out.push(
                            err_msg(String::from_str("failed to read ").concat(file.as_str()).as_str()),
                        );
                        proof {
                            assert(out.deep_view() =~= cur.reports.push(read_fail_msg(name)));
                            assert(admit_one(cur, name, files@) == (AdmitState {
                                reports: out.deep_view(),
                                ..cur
                            }));
                        }
                    },
                    KernelError::OutOfMemory => {
                        out.push(
                            err_msg(
                                String::from_str("out of memory admitting ").concat(
                                    file.as_str(),
                                ).as_str(),
                            ),
                        );
                        proof {
                            assert(out.deep_view() =~= cur.reports.push(oom_msg(name)));
                            assert(admit_one(cur, name, files@) == (AdmitState {
                                reports: out.deep_view(),
                                ..cur
                            }));
                        }
                    },
                    _ => {
                        proof {
                            assert(false);
                        }
                    },
                }
            },
        }
        fi += 1;
    }
    proof {
        assert(ad == (AdmitState {
            reports: out.deep_view(),
            queued: queued_model(kern.job_queue@),
            free: kern.frame_table.free_count() as int,
            progs_len: kern.programs@.len() as int,
            next_pid: kern.next_pid as int,
        }));
        assert(ad.queued.len() == kern.job_queue@.len());
    }
    let ghost reports = out.deep_view();
    let ghost pre_sched = *kern;
    let sched = kern.execute_fcfs_schedule(files);
    match sched {
        Ok(mut lines) => {
            let ghost sout = lines.deep_view();
            out.append(&mut lines);
            proof {
                assert(out.deep_view() =~= reports + sout);
                lemma_run_queue_model(
                    pre_sched.job_queue@,
                    pre_sched.programs@.map_values(|sp: SharedProgram| sp.program),
                    pre_sched.prog_memory@,
                    var_views(pre_sched.var_memory.var_mem@),
                    pre_sched.mode,
                    files@,
                );
                assert forall|sp: int|
                    0 <= sp < kern.programs@.len() implies kern.programs@[sp].program == (
                #[trigger] pre_sched.programs@[sp].program) by {}
                assert(kern.programs@.map_values(|sp: SharedProgram| sp.program)
                    =~= pre_sched.programs@.map_values(|sp: SharedProgram| sp.program));
            }
        },
        Err(_) => {
            out.push(err_msg("No job to execute"));
            proof {
                assert(out.deep_view() =~= reports.push(no_job_msg()));
                crate::kernel::lemma_idle_kernel_all_free(*kern);
            }
        },
    }
    out
}

/// The filenames a statement hands to the file-reading front end: the
/// arguments of an `exec` or `cat` command, and nothing otherwise.
pub open spec fn filename_args_spec(stmt: Seq<char>) -> Seq<Seq<char>> {
    let toks = tokens(stmt);
    if toks.len() >= 2 && (toks[0] == "exec"@ || toks[0] == "cat"@) {
        toks.skip(1)
    } else {
        Seq::empty()
    }
}

/// The filenames a statement mentions, for callers that read script files
/// ahead of dispatch.
pub fn filename_args(statement: &str) -> (r: Vec<String>)
    ensures
        r.deep_view() == filename_args_spec(statement@),
{
    let toks = tokenize(statement);
    proof {
        assert(toks.deep_view() == tokens(statement@));
    }
    let mut r: Vec<String> = Vec::new();
    if toks.len() >= 2 && (str_eq(toks[0].as_str(), "exec") || str_eq(toks[0].as_str(), "cat")) {
        let mut t: usize = 1;
        while t < toks.len()
            invariant
                1 <= t <= toks@.len(),
                r.deep_view() =~= toks.deep_view().subrange(1, t as int),
            decreases toks@.len() - t,
        {
            let ghost pre = r.deep_view();
            r.push(toks[t].clone());
            proof {
                assert(r.deep_view() =~= pre.push(toks@[t as int]@));
                assert(r.deep_view() =~= toks.deep_view().subrange(1, t as int + 1));
            }
            t += 1;
        }
        proof {
            assert(r.deep_view() =~= toks.deep_view().skip(1));
        }
    } else {
        proof {
            assert(r.deep_view() =~= Seq::<Seq<char>>::empty());
        }
    }
    r
}

/// A one-statement list whose statement is an admission command with at
/// least one filename.
pub open spec fn single_exec_input(stmts: Seq<Seq<char>>) -> bool {
    stmts.len() == 1 && tokens(stmts[0]).len() >= 2 && tokens(stmts[0])[0] == "exec"@
}

/// No statement of the list names the admission command.
pub open spec fn no_exec_statements(input: Seq<Seq<char>>) -> bool {
    forall|i: int|
        0 <= i < input.len() ==> (tokens(#[trigger] input[i]).len() == 0 || tokens(input[i])[0]
            != "exec"@)
}

/// The top-level dispatcher: process each statement in order. `exec`
/// admits and runs jobs; an empty statement or a malformed command stops
/// the remaining statements; an unknown command is reported and skipped.
/// A statement list free of `exec` behaves exactly as `run_line_from`
/// says and touches nothing but the variable store and the mode.
pub fn interpreter(input: Vec<String>, kernel: &mut Kernel, files: &Vec<ScriptFile>) -> (out: Vec<
    String,
>)
    requires
        old(kernel).wf(),
    ensures
        final(kernel).wf(),
        old(kernel).next_pid <= final(kernel).next_pid,
        old(kernel).job_queue@.len() == 0 ==> final(kernel).job_queue@.len() == 0,
        ({
            let fl = run_line_from(
                input.deep_view(),
                0,
                var_views(old(kernel).var_memory.var_mem@),
                old(kernel).mode,
                files@,
            );
            no_exec_statements(input.deep_view()) ==> {
                &&& out.deep_view() == fl.out
                &&& var_views(final(kernel).var_memory.var_mem@) == fl.vars
                &&& final(kernel).mode == fl.mode
                &&& final(kernel).job_queue@ == old(kernel).job_queue@
                &&& final(kernel).programs@ == old(kernel).programs@
                &&& final(kernel).frame_table == old(kernel).frame_table
                &&& final(kernel).prog_memory == old(kernel).prog_memory
                &&& final(kernel).next_pid == old(kernel).next_pid
            }
        }),
        ({
            let stmts = input.deep_view();
            single_exec_input(stmts) ==> ({
                let ad = admit_from(
                    tokens(stmts[0]).skip(1),
                    0,
                    AdmitState {
                        reports: Seq::empty(),
                        queued: queued_model(old(kernel).job_queue@),
                        free: old(kernel).frame_table.free_count() as int,
                        progs_len: old(kernel).programs@.len() as int,
                        next_pid: old(kernel).next_pid as int,
                    },
                    files@,
                );
                &&& final(kernel).next_pid == ad.next_pid
                &&& (ad.queued.len() == 0 ==> out.deep_view() == ad.reports.push(no_job_msg()))
                &&& (ad.queued.len() > 0 ==> ({
                    let qe = run_queue_m(
                        ad.queued,
                        final(kernel).programs@.map_values(|sp: SharedProgram| sp.program),
                        final(kernel).prog_memory@,
                        var_views(old(kernel).var_memory.var_mem@),
                        old(kernel).mode,
                        files@,
                    );
                    &&& out.deep_view() == ad.reports + qe.out
                    &&& var_views(final(kernel).var_memory.var_mem@) == qe.vars
                    &&& final(kernel).mode == qe.mode
                }))
            })
        }),
{
    let mut out: Vec<String> = Vec::new();
    let n = input.len();
    let mut idx: usize = 0;
    let ghost inv = input.deep_view();
    let ghost v0 = var_views(old(kernel).var_memory.var_mem@);
    let ghost m0 = old(kernel).mode;
    let ghost fl = run_line_from(inv, 0, v0, m0, files@);
    proof {
        assert(fl.out =~= out.deep_view() + fl.out);
    }
    while idx < n
        invariant
            kernel.wf(),
            n == input@.len(),
            idx <= n,
            inv == input.deep_view(),
            v0 == var_views(old(kernel).var_memory.var_mem@),
            m0 == old(kernel).mode,
            fl == run_line_from(inv, 0, v0, m0, files@),
            old(kernel).next_pid <= kernel.next_pid,
            old(kernel).job_queue@.len() == 0 ==> kernel.job_queue@.len() == 0,
            no_exec_statements(inv) ==> ({
                let rl = run_line_from(
                    inv,
                    idx as int,
                    var_views(kernel.var_memory.var_mem@),
                    kernel.mode,
                    files@,
                );
                &&& fl.out == out.deep_view() + rl.out
                &&& fl.vars == rl.vars
                &&& fl.mode == rl.mode
                &&& kernel.job_queue@ == old(kernel).job_queue@
                &&& kernel.programs@ == old(kernel).programs@
                &&& kernel.frame_table == old(kernel).frame_table
                &&& kernel.prog_memory == old(kernel).prog_memory
                &&& kernel.next_pid == old(kernel).next_pid
            }),
            single_exec_input(inv) && idx == 0 ==> *kernel == *old(kernel) && out.deep_view()
                == Seq::<Seq<char>>::empty(),
            single_exec_input(inv) && idx >= 1 ==> ({
                let ad = admit_from(
                    tokens(inv[0]).skip(1),
                    0,
                    AdmitState {
                        reports: Seq::empty(),
                        queued: queued_model(old(kernel).job_queue@),
                        free: old(kernel).frame_table.free_count() as int,
                        progs_len: old(kernel).programs@.len() as int,
                        next_pid: old(kernel).next_pid as int,
                    },
                    files@,
                );
                &&& kernel.next_pid == ad.next_pid
                &&& (ad.queued.len() == 0 ==> out.deep_view() == ad.reports.push(no_job_msg()))
                &&& (ad.queued.len() > 0 ==> ({
                    let qe = run_queue_m(
                        ad.queued,
                        kernel.programs@.map_values(|sp: SharedProgram| sp.program),
                        kernel.prog_memory@,
                        var_views(old(kernel).var_memory.var_mem@),
                        old(kernel).mode,
                        files@,
                    );
                    &&& out.deep_view() == ad.reports + qe.out
                    &&& var_views(kernel.var_memory.var_mem@) == qe.vars
                    &&& kernel.mode == qe.mode
                }))
            }),
        decreases n - idx,
    {
        let arg = &input[idx];
        proof {
            assert(inv[idx as int] == arg@);
        }
        let toks = tokenize(arg.as_str());
        proof {
            assert(toks.deep_view() == tokens(arg@));
        }
        if toks.len() == 0 {
            proof {
                if no_exec_statements(inv) {
                    let cv = var_views(kernel.var_memory.var_mem@);
                    let step = dispatch_spec(inv[idx as int], cv, kernel.mode, files@);
                    let rl = run_line_from(inv, idx as int, cv, kernel.mode, files@);
                    assert(tokens(inv[idx as int]).len() == 0);
                    assert(step.result == DispatchResult::StopLine);
                    assert(rl.vars == cv);
                    assert(rl.mode == kernel.mode);
                    assert(rl.out =~= Seq::<Seq<char>>::empty());
                    assert(fl.out =~= out.deep_view());
                }
            }
            return out;
        }
        if str_eq(toks[0].as_str(), "exec") {
            proof {
                assert(tokens(inv[idx as int])[0] == "exec"@);
                assert(!no_exec_statements(inv));
            }
            if toks.len() < 2 {
                out.push(bad_cmd("usage: exec <FILENAME 1> <FILENAME 2> <etc...>"));
                return out;
            }
            let mut fnames: Vec<String> = Vec::new();
            let mut t: usize = 1;
            while t < toks.len()
                invariant
                    kernel.wf(),
                    old(kernel).next_pid <= kernel.next_pid,
                    old(kernel).job_queue@.len() == 0 ==> kernel.job_queue@.len() == 0,
                    1 <= t <= toks@.len(),
                    fnames.deep_view() =~= toks.deep_view().subrange(1, t as int),
                decreases toks@.len() - t,
            {
                let ghost prefn = fnames.deep_view();
                fnames.push(toks[t].clone());
                proof {
                    assert(fnames.deep_view() =~= prefn.push(toks@[t as int]@));
                    assert(fnames.deep_view() =~= toks.deep_view().subrange(1, t as int + 1));
                }
                t += 1;
            }
            proof {
                assert(fnames.deep_view() =~= toks.deep_view().skip(1));
            }
            let ghost pre_exec = *kernel;
            let ghost out_pre_exec = out.deep_view();
            let mut e_out = exec(&fnames, kernel, files);
            let ghost e_view = e_out.deep_view();
            out.append(&mut e_out);
            proof {
                assert(out.deep_view() =~= out_pre_exec + e_view);
                if single_exec_input(inv) && idx == 0 {
                    assert(pre_exec == *old(kernel));
                    assert(fnames.deep_view() == tokens(inv[0]).skip(1));
                    assert(out.deep_view() =~= e_view);
                }
            }
        } else {
            let ghost pre_self = *kernel;
            let ghost pre_v = var_views(kernel.var_memory.var_mem@);
            let ghost pre_m = kernel.mode;
            let dr = dispatch_statement(arg.as_str(), kernel, files, &mut out);
            proof {
                crate::kernel::lemma_wf_var_mode(pre_self, *kernel);
            }
            proof {
                if no_exec_statements(inv) {
                    let step = dispatch_spec(inv[idx as int], pre_v, pre_m, files@);
                    let rl_pre = run_line_from(inv, idx as int, pre_v, pre_m, files@);
                    if step.result == DispatchResult::Continue {
                        let rl_next = run_line_from(
                            inv,
                            idx as int + 1,
                            step.vars,
                            step.mode,
                            files@,
                        );
                        assert(rl_pre.out == step.out + rl_next.out);
                        assert(fl.out =~= out.deep_view() + rl_next.out);
                    } else {
                        assert(rl_pre.out == step.out);
                        assert(fl.out =~= out.deep_view());
                    }
                }
            }
            match dr {
                DispatchResult::Continue => {},
                _ => {
                    return out;
                },
            }
        }
        idx += 1;
    }
    proof {
        if no_exec_statements(inv) {
            let rl = run_line_from(
                inv,
                idx as int,
                var_views(kernel.var_memory.var_mem@),
                kernel.mode,
                files@,
            );
            assert(rl.out =~= Seq::<Seq<char>>::empty());
            assert(fl.out =~= out.deep_view());
        }
    }
    out
}

} // verus!
