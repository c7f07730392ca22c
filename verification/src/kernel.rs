//! The kernel context: the job queue, the arena of refcounted program
//! images, and the memories, together with the well-formedness invariants
//! that tie frame ownership, program lifetimes and the queue together.

use vstd::prelude::*;
use std::collections::VecDeque;
use crate::errors::KernelError;
use crate::job::{Job, Program, ScriptFile};
use crate::shellmemory::{FrameTable, ProgMemory, VarMemory, FRAME_SIZE, MEM_SIZE, NUM_FRAMES};

verus! {

/// Scheduling mode. Admission order is preserved regardless of the mode;
/// only strict FIFO-to-completion is performed, the mode is a label for
/// user feedback (round-robin and shortest-job-first are declared but not
/// implemented as distinct policies).
#[derive(Clone, Copy, Debug, PartialEq, Eq, Structural)]
pub enum Mode {
    FCFS,
    RR,
    SJF,
}

/// What running one job produced: its output and diagnostic lines, how
/// many logical lines completed, and whether a dispatcher failure cut the
/// job short.
pub struct JobOutcome {
    pub output: Vec<String>,
    pub lines_run: usize,
    pub aborted: bool,
}

/// One arena slot: a loaded program image and the number of live jobs
/// holding it. A slot with refcount zero is dead; its frames are free.
pub struct SharedProgram {
    pub program: Program,
    pub refcount: usize,
}

/// The kernel context.
pub struct Kernel {
    pub job_queue: VecDeque<Job>,
    pub programs: Vec<SharedProgram>,
    pub prog_memory: ProgMemory,
    pub var_memory: VarMemory,
    pub frame_table: FrameTable,
    pub mode: Mode,
    pub next_pid: i64,
}

/// How many jobs of `q` reference arena slot `sid`.
pub open spec fn count_refs(q: Seq<Job>, sid: int) -> nat
    decreases q.len(),
{
    if q.len() == 0 {
        0
    } else {
        (if q[0].prog_id == sid {
            1nat
        } else {
            0nat
        }) + count_refs(q.drop_first(), sid)
    }
}

/// Appending a job raises exactly its own slot's reference count.
pub proof fn lemma_count_refs_push(q: Seq<Job>, j: Job, sid: int)
    ensures
        count_refs(q.push(j), sid) == count_refs(q, sid) + (if j.prog_id == sid {
            1nat
        } else {
            0nat
        }),
    decreases q.len(),
{
    if q.len() == 0 {
        assert(count_refs(q, sid) == 0);
        assert(q.push(j)[0] == j);
        assert(q.push(j).drop_first() =~= Seq::<Job>::empty());
        assert(count_refs(q.push(j).drop_first(), sid) == 0);
        assert(count_refs(q.push(j), sid) == (if j.prog_id == sid {
            1nat
        } else {
            0nat
        }) + count_refs(q.push(j).drop_first(), sid));
    } else {
        assert(q.push(j)[0] == q[0]);
        assert(q.push(j).len() != 0);
        assert(count_refs(q.push(j), sid) == (if q[0].prog_id == sid {
            1nat
        } else {
            0nat
        }) + count_refs(q.push(j).drop_first(), sid));
        assert(q.push(j).drop_first() =~= q.drop_first().push(j));
        lemma_count_refs_push(q.drop_first(), j, sid);
    }
}

/// A positive reference count comes from some queued job.
pub proof fn lemma_count_refs_exists(q: Seq<Job>, sid: int)
    requires
        count_refs(q, sid) >= 1,
    ensures
        exists|i: int| 0 <= i < q.len() && (#[trigger] q[i]).prog_id == sid,
    decreases q.len(),
{
    if q.len() > 0 {
        if q[0].prog_id == sid {
            assert(q[0].prog_id == sid);
        } else {
            lemma_count_refs_exists(q.drop_first(), sid);
            let i = choose|i: int|
                0 <= i < q.drop_first().len() && (#[trigger] q.drop_first()[i]).prog_id == sid;
            assert(q[i + 1].prog_id == sid);
        }
    }
}

/// The line slots of frame `f`.
pub open spec fn frame_lines(mem: Seq<Seq<char>>, f: int) -> Seq<Seq<char>> {
    Seq::new(FRAME_SIZE as nat, |k: int| mem[f * (FRAME_SIZE as int) + k])
}

/// The frames in use among the first `n`, each with its stored lines.
pub open spec fn memory_dump_upto(frames: Seq<crate::shellmemory::Frame>, mem: Seq<Seq<char>>, n: int) -> Seq<
    (usize, Seq<Seq<char>>),
>
    decreases n,
{
    if n <= 0 {
        Seq::empty()
    } else {
        memory_dump_upto(frames, mem, n - 1) + (if frames[n - 1].valid {
            seq![(((n - 1) as usize), frame_lines(mem, n - 1))]
        } else {
            Seq::empty()
        })
    }
}

/// The effect of draining a queue: the concatenated outputs of its jobs,
/// run in admission order, each to completion, and the state they leave.
pub struct QueueEffect {
    pub out: Seq<Seq<char>>,
    pub vars: Seq<(Option<Seq<char>>, Option<Seq<char>>)>,
    pub mode: Mode,
}

/// Run the queued jobs front to back: each job's effect is `run_job_from`
/// over its image's page table, threading the variable store and mode.
pub open spec fn run_queue(
    queue: Seq<Job>,
    progs: Seq<Program>,
    mem: Seq<Seq<char>>,
    vars: Seq<(Option<Seq<char>>, Option<Seq<char>>)>,
    mode: Mode,
    files: Seq<ScriptFile>,
) -> QueueEffect
    decreases queue.len(),
{
    if queue.len() == 0 {
        QueueEffect { out: Seq::empty(), vars, mode }
    } else {
        let j = queue[0];
        let jf = crate::interpreter::run_job_from(
            mem,
            progs[j.prog_id as int].page_table@,
            0,
            j.size as int,
            vars,
            mode,
            files,
        );
        let rest = run_queue(queue.drop_first(), progs, mem, jf.vars, jf.mode, files);
        QueueEffect { out: jf.out + rest.out, vars: rest.vars, mode: rest.mode }
    }
}

/// The kernel invariant survives changes confined to the variable memory
/// and the scheduler mode.
pub proof fn lemma_wf_var_mode(pre: Kernel, post: Kernel)
    requires
        pre.wf(),
        post.var_memory.wf(),
        post.job_queue@ == pre.job_queue@,
        post.programs@ == pre.programs@,
        post.frame_table == pre.frame_table,
        post.prog_memory == pre.prog_memory,
    ensures
        post.wf(),
{
    lemma_owners_same(pre, post);
    lemma_slots_same(pre, post);
    assert forall|i: int|
        0 <= i < post.job_queue@.len() implies post.job_ok(#[trigger] post.job_queue@[i]) by {
        assert(pre.job_ok(pre.job_queue@[i]));
    }
    assert forall|s: int|
        0 <= s < post.programs@.len() implies (#[trigger] post.programs@[s]).refcount
        == count_refs(post.job_queue@, s) by {
        assert(pre.programs@[s].refcount == count_refs(pre.job_queue@, s));
    }
}

/// The dispatch-pending kernel invariant likewise survives changes
/// confined to the variable memory and the scheduler mode.
pub proof fn lemma_pending_var_mode(pre: Kernel, post: Kernel, job: Job)
    requires
        pre.pending_wf(job),
        post.var_memory.wf(),
        post.job_queue@ == pre.job_queue@,
        post.programs@ == pre.programs@,
        post.frame_table == pre.frame_table,
        post.prog_memory == pre.prog_memory,
    ensures
        post.pending_wf(job),
{
    lemma_owners_same(pre, post);
    lemma_slots_same(pre, post);
    assert forall|i: int|
        0 <= i < post.job_queue@.len() implies post.job_ok(#[trigger] post.job_queue@[i]) by {
        assert(pre.job_ok(pre.job_queue@[i]));
    }
    assert forall|s: int|
        0 <= s < post.programs@.len() implies (#[trigger] post.programs@[s]).refcount
        == count_refs(post.job_queue@, s) + (if s == job.prog_id {
        1nat
    } else {
        0nat
    }) by {
        assert(pre.programs@[s].refcount == count_refs(pre.job_queue@, s) + (if s == job.prog_id {
            1nat
        } else {
            0nat
        }));
    }
}

/// Law (sharing idempotence): two queued jobs admitted for the same
/// filename hold the same program image, whose reference count accounts
/// for both.
pub proof fn lemma_sharing_idempotent(k: Kernel, i: int, j: int)
    requires
        k.wf(),
        0 <= i < j < k.job_queue@.len(),
        k.job_queue@[i].filename@ == k.job_queue@[j].filename@,
    ensures
        k.job_queue@[i].prog_id == k.job_queue@[j].prog_id,
        k.programs@[k.job_queue@[i].prog_id as int].refcount >= 2,
{
    let s1 = k.job_queue@[i].prog_id as int;
    let s2 = k.job_queue@[j].prog_id as int;
    assert(k.job_ok(k.job_queue@[i]));
    assert(k.job_ok(k.job_queue@[j]));
    lemma_count_refs_at(k.job_queue@, i, s1);
    lemma_count_refs_at(k.job_queue@, j, s2);
    assert(k.programs@[s1].refcount == count_refs(k.job_queue@, s1));
    assert(k.programs@[s2].refcount == count_refs(k.job_queue@, s2));
    assert(k.live(s1) && k.live(s2));
    if s1 != s2 {
        assert(k.programs@[s1].program.filename@ != k.programs@[s2].program.filename@);
        assert(false);
    }
    lemma_count_refs_two(k.job_queue@, i, j, s1);
}

/// Law: with no queued job, every program image is unreferenced and every
/// frame is free.
pub proof fn lemma_idle_kernel_all_free(k: Kernel)
    requires
        k.wf(),
        k.job_queue@.len() == 0,
    ensures
        forall|s: int| 0 <= s < k.programs@.len() ==> (#[trigger] k.programs@[s]).refcount == 0,
        forall|j: int|
            0 <= j < k.frame_table.frames@.len() ==> !(#[trigger] k.frame_table.frames@[j]).valid,
{
    assert forall|s: int|
        0 <= s < k.programs@.len() implies (#[trigger] k.programs@[s]).refcount == 0 by {
        assert(k.programs@[s].refcount == count_refs(k.job_queue@, s));
    }
    assert forall|j: int|
        0 <= j < k.frame_table.frames@.len() implies !(
    #[trigger] k.frame_table.frames@[j]).valid by {
        if k.frame_table.frames@[j].valid {
            assert(k.frame_covered(j));
            let s = choose|s: int|
                #[trigger] k.live(s) && k.programs@[s].program.page_table@.contains(j as usize);
            assert(k.programs@[s].refcount == 0);
            assert(false);
        }
    }
}

/// Dropping one holder of a slot — freeing its frames when it was the last
/// one — restores the kernel invariant.
proof fn lemma_dealloc(pre: Kernel, post: Kernel, job: Job, rc: int)
    requires
        pre.pending_wf(job),
        rc == pre.programs@[job.prog_id as int].refcount,
        post.programs@ == pre.programs@.update(
            job.prog_id as int,
            SharedProgram {
                program: pre.programs@[job.prog_id as int].program,
                refcount: (rc - 1) as usize,
            },
        ),
        post.job_queue@ == pre.job_queue@,
        post.prog_memory == pre.prog_memory,
        post.var_memory == pre.var_memory,
        post.frame_table.wf(),
        rc == 1 ==> crate::shellmemory::free_ok(
            pre.frame_table,
            post.frame_table,
            pre.programs@[job.prog_id as int].program.page_table@,
        ),
        rc > 1 ==> post.frame_table == pre.frame_table,
    ensures
        post.wf(),
{
    let sid = job.prog_id as int;
    let pt = pre.programs@[sid].program.page_table@;
    assert(rc >= 1);
    assert(pre.live(sid));
    assert forall|s: int| 0 <= s < post.programs@.len() implies #[trigger] post.programs@[
        s
    ].program == pre.programs@[s].program by {}
    assert forall|s: int| #[trigger] post.live(s) implies pre.live(s) by {}
    assert forall|s: int|
        0 <= s < post.programs@.len() implies (#[trigger] post.programs@[s]).refcount
        == count_refs(post.job_queue@, s) by {
        assert(pre.programs@[s].refcount == count_refs(pre.job_queue@, s) + (if s == sid {
            1nat
        } else {
            0nat
        }));
    }
    assert forall|i: int|
        0 <= i < post.job_queue@.len() implies post.job_ok(#[trigger] post.job_queue@[i]) by {
        assert(pre.job_ok(pre.job_queue@[i]));
    }
    assert forall|s: int| #[trigger] post.live(s) implies post.programs@[s].program.pt_wf() by {
        assert(pre.live(s));
    }
    if rc == 1 {
        assert(!post.live(sid));
        assert forall|s: int| #[trigger] post.live(s) implies post.owns_frames(s) by {
            assert(pre.live(s));
            assert(pre.owns_frames(s));
            assert(s != sid);
            let q = post.programs@[s].program;
            assert forall|k: int| 0 <= k < q.page_table@.len() implies {
                let f = post.frame_table.frames@[#[trigger] q.page_table@[k] as int];
                f.valid && f.owner is Some && f.owner.unwrap()@ == q.filename@
            } by {
                let j = q.page_table@[k] as int;
                assert(pre.frame_table.frames@[j].valid);
                assert(pre.frame_table.frames@[j].owner.unwrap()@ == q.filename@);
                if pt.contains(j as usize) {
                    assert(pre.owns_frames(sid));
                    let m = choose|m: int| 0 <= m < pt.len() && pt[m] == j as usize;
                    assert(pre.frame_table.frames@[j].owner.unwrap()@ == pre.programs@[
                        sid
                    ].program.filename@);
                    assert(pre.programs@[s].program.filename@ != pre.programs@[
                        sid
                    ].program.filename@);
                    assert(false);
                }
                assert(post.frame_table.frames@[j] == pre.frame_table.frames@[j]);
            }
        }
        assert forall|j: int|
            0 <= j < post.frame_table.frames@.len() && (
            #[trigger] post.frame_table.frames@[j]).valid implies post.frame_covered(j) by {
            if pt.contains(j as usize) {
                let m = choose|m: int| 0 <= m < pt.len() && pt[m] == j as usize;
                assert(post.frame_table.frames@[pt[m] as int] == (crate::shellmemory::Frame {
                    valid: false,
                    id: pt[m],
                    owner: None,
                }));
                assert(false);
            }
            assert(post.frame_table.frames@[j] == pre.frame_table.frames@[j]);
            assert(pre.frame_covered(j));
            let s = choose|s: int|
                #[trigger] pre.live(s) && pre.programs@[s].program.page_table@.contains(j as usize);
            assert(s != sid);
            assert(post.live(s) && post.programs@[s].program.page_table@.contains(j as usize));
        }
    } else {
        assert forall|s: int| #[trigger] post.live(s) implies post.owns_frames(s) by {
            assert(pre.live(s));
            assert(pre.owns_frames(s));
        }
        assert forall|j: int|
            0 <= j < post.frame_table.frames@.len() && (
            #[trigger] post.frame_table.frames@[j]).valid implies post.frame_covered(j) by {
            assert(pre.frame_covered(j));
            let s = choose|s: int|
                #[trigger] pre.live(s) && pre.programs@[s].program.page_table@.contains(j as usize);
            assert(post.live(s) && post.programs@[s].program.page_table@.contains(j as usize));
        }
    }
    assert forall|s1: int, s2: int|
        #[trigger] post.live(s1) && #[trigger] post.live(s2) && s1 != s2 implies post.programs@[
        s1
    ].program.filename@ != post.programs@[s2].program.filename@ by {
        assert(pre.live(s1) && pre.live(s2));
    }
}

/// After a load that took previously free frames for image `p` and touched
/// nothing else of the kernel, the load-pending invariant holds.
pub proof fn lemma_load_pending(pre: Kernel, post: Kernel, p: Program)
    requires
        pre.wf(),
        !pre.queued_filename(p.filename@),
        p.pt_wf(),
        crate::shellmemory::alloc_ok(
            pre.frame_table,
            post.frame_table,
            p.page_table@,
            p.page_table@.len() as int,
            p.filename@,
        ),
        post.frame_table.wf(),
        post.prog_memory.wf(),
        post.prog_memory.size == MEM_SIZE,
        post.var_memory == pre.var_memory,
        post.job_queue@ == pre.job_queue@,
        post.programs@ == pre.programs@,
    ensures
        post.load_pending_wf(p),
{
    let ids = p.page_table@;
    lemma_slots_same(pre, post);
    assert forall|i: int|
        0 <= i < post.job_queue@.len() implies post.job_ok(#[trigger] post.job_queue@[i]) by {
        assert(pre.job_ok(pre.job_queue@[i]));
    }
    assert forall|sid: int|
        0 <= sid < post.programs@.len() implies (#[trigger] post.programs@[sid]).refcount
        == count_refs(post.job_queue@, sid) by {
        assert(pre.programs@[sid].refcount == count_refs(pre.job_queue@, sid));
    }
    // Frames of live programs were in use before the load, so they were not
    // free, hence not allocated to `p`, hence untouched.
    assert forall|sid: int| #[trigger] post.live(sid) implies post.owns_frames(sid) by {
        assert(pre.live(sid));
        assert(pre.owns_frames(sid));
        let q = post.programs@[sid].program;
        assert forall|k: int| 0 <= k < q.page_table@.len() implies {
            let f = post.frame_table.frames@[#[trigger] q.page_table@[k] as int];
            f.valid && f.owner is Some && f.owner.unwrap()@ == q.filename@
        } by {
            let j = q.page_table@[k] as int;
            assert(pre.frame_table.frames@[j].valid);
            assert(!pre.frame_table.is_free(j));
            if ids.contains(j as usize) {
                let m = choose|m: int| 0 <= m < ids.len() && ids[m] == j as usize;
                assert(pre.frame_table.is_free(ids[m] as int));
                assert(false);
            }
            assert(post.frame_table.frames@[j] == pre.frame_table.frames@[j]);
        }
    }
    assert forall|j: int|
        0 <= j < post.frame_table.frames@.len() && (#[trigger] post.frame_table.frames@[j]).valid
        implies post.frame_covered(j) || ids.contains(j as usize) by {
        if !ids.contains(j as usize) {
            assert(post.frame_table.frames@[j] == pre.frame_table.frames@[j]);
            assert(pre.frame_covered(j));
            let sid = choose|sid: int|
                #[trigger] pre.live(sid) && pre.programs@[sid].program.page_table@.contains(
                    j as usize,
                );
            assert(post.live(sid) && post.programs@[sid].program.page_table@.contains(j as usize));
        }
    }
    assert forall|s1: int, s2: int|
        #[trigger] post.live(s1) && #[trigger] post.live(s2) && s1 != s2 implies post.programs@[
        s1
    ].program.filename@ != post.programs@[s2].program.filename@ by {
        assert(pre.live(s1) && pre.live(s2));
    }
    // No live program carries `p`'s filename: a live slot is referenced by
    // some queued job, whose filename would then be queued.
    assert forall|sid: int| #[trigger] post.live(sid) implies post.programs@[sid].program.filename@
        != p.filename@ by {
        assert(pre.live(sid));
        if pre.programs@[sid].program.filename@ == p.filename@ {
            assert(pre.programs@[sid].refcount == count_refs(pre.job_queue@, sid));
            lemma_count_refs_exists(pre.job_queue@, sid);
            let i = choose|i: int|
                0 <= i < pre.job_queue@.len() && (#[trigger] pre.job_queue@[i]).prog_id == sid;
            assert(pre.job_ok(pre.job_queue@[i]));
            assert(pre.job_queue@[i].filename@ == p.filename@);
            assert(pre.queued_filename(p.filename@));
            assert(false);
        }
    }
}

/// Frame ownership only depends on the arena and the frame table: it
/// carries over to any kernel state that agrees on both.
pub proof fn lemma_owners_same(k1: Kernel, k2: Kernel)
    requires
        k1.programs@ == k2.programs@,
        k1.frame_table.frames@ == k2.frame_table.frames@,
        k1.owners_ok(),
    ensures
        k2.owners_ok(),
{
    assert forall|sid: int| #[trigger] k2.live(sid) implies k2.owns_frames(sid) by {
        assert(k1.live(sid));
        assert(k1.owns_frames(sid));
    }
    assert forall|j: int|
        0 <= j < k2.frame_table.frames@.len() && (#[trigger] k2.frame_table.frames@[j]).valid
        implies k2.frame_covered(j) by {
        assert(k1.frame_table.frames@[j].valid);
        assert(k1.frame_covered(j));
        let sid = choose|sid: int|
            #[trigger] k1.live(sid) && k1.programs@[sid].program.page_table@.contains(j as usize);
        assert(k2.live(sid) && k2.programs@[sid].program.page_table@.contains(j as usize));
    }
    assert forall|s1: int, s2: int|
        #[trigger] k2.live(s1) && #[trigger] k2.live(s2) && s1 != s2 implies k2.programs@[
        s1
    ].program.filename@ != k2.programs@[s2].program.filename@ by {
        assert(k1.live(s1) && k1.live(s2));
    }
}

/// Page-table structure likewise only depends on the arena.
pub proof fn lemma_slots_same(k1: Kernel, k2: Kernel)
    requires
        k1.programs@ == k2.programs@,
        k1.slots_wf(),
    ensures
        k2.slots_wf(),
{
    assert forall|sid: int| #[trigger] k2.live(sid) implies k2.programs@[sid].program.pt_wf() by {
        assert(k1.live(sid));
    }
}

/// A queued job referencing a slot gives it a positive reference count.
pub proof fn lemma_count_refs_at(q: Seq<Job>, i: int, sid: int)
    requires
        0 <= i < q.len(),
        q[i].prog_id == sid,
    ensures
        count_refs(q, sid) >= 1,
    decreases q.len(),
{
    if i > 0 {
        lemma_count_refs_at(q.drop_first(), i - 1, sid);
    }
}

/// Law: two distinct queued jobs that share an arena slot account for a
/// reference count of at least two.
pub proof fn lemma_count_refs_two(q: Seq<Job>, i: int, j: int, sid: int)
    requires
        0 <= i < j < q.len(),
        q[i].prog_id == sid,
        q[j].prog_id == sid,
    ensures
        count_refs(q, sid) >= 2,
    decreases q.len(),
{
    if i == 0 {
        lemma_count_refs_at(q.drop_first(), j - 1, sid);
    } else {
        lemma_count_refs_two(q.drop_first(), i - 1, j - 1, sid);
    }
}

impl Kernel {
    /// Arena slot `sid` exists and some live job still holds it.
    pub open spec fn live(self, sid: int) -> bool {
        0 <= sid < self.programs@.len() && self.programs@[sid].refcount > 0
    }

    /// Every frame of live program `sid` is in use and bound to its filename.
    pub open spec fn owns_frames(self, sid: int) -> bool {
        let p = self.programs@[sid].program;
        forall|k: int|
            0 <= k < p.page_table@.len() ==> {
                let f = self.frame_table.frames@[#[trigger] p.page_table@[k] as int];
                f.valid && f.owner is Some && f.owner.unwrap()@ == p.filename@
            }
    }

    /// Frame `j` belongs to some live program's page table.
    pub open spec fn frame_covered(self, j: int) -> bool {
        exists|sid: int|
            #[trigger] self.live(sid) && self.programs@[sid].program.page_table@.contains(
                j as usize,
            )
    }

    /// Frame ownership: live programs own their frames, every frame in use
    /// belongs to a live program, and live programs have distinct filenames.
    pub open spec fn owners_ok(self) -> bool {
        &&& forall|sid: int| #[trigger] self.live(sid) ==> self.owns_frames(sid)
        &&& forall|j: int|
            0 <= j < self.frame_table.frames@.len() && (
            #[trigger] self.frame_table.frames@[j]).valid ==> self.frame_covered(j)
        &&& forall|s1: int, s2: int|
            #[trigger] self.live(s1) && #[trigger] self.live(s2) && s1 != s2
                ==> self.programs@[s1].program.filename@ != self.programs@[s2].program.filename@
    }

    /// A job's descriptor agrees with the arena slot it references, and it
    /// has not started running.
    pub open spec fn job_ok(self, job: Job) -> bool {
        &&& (job.prog_id as int) < self.programs@.len()
        &&& job.size == self.programs@[job.prog_id as int].program.size
        &&& job.filename@ == self.programs@[job.prog_id as int].program.filename@
        &&& job.pc == 0
    }

    /// Every queued job is consistent with the arena.
    pub open spec fn queue_ok(self) -> bool {
        forall|i: int|
            0 <= i < self.job_queue@.len() ==> self.job_ok(#[trigger] self.job_queue@[i])
    }

    /// Every live slot's page table is structurally sound.
    pub open spec fn slots_wf(self) -> bool {
        forall|sid: int|
            #[trigger] self.live(sid) ==> self.programs@[sid].program.pt_wf()
    }

    /// All invariants except reference-count accounting.
    pub open spec fn base_wf(self) -> bool {
        &&& self.frame_table.wf()
        &&& self.prog_memory.wf()
        &&& self.prog_memory.size == MEM_SIZE
        &&& self.var_memory.wf()
        &&& self.slots_wf()
        &&& self.queue_ok()
        &&& self.owners_ok()
    }

    /// Reference counts equal the number of queued jobs per slot.
    pub open spec fn counts_ok(self) -> bool {
        forall|sid: int|
            0 <= sid < self.programs@.len() ==> (#[trigger] self.programs@[sid]).refcount
                == count_refs(self.job_queue@, sid)
    }

    /// The kernel invariant between operations: no job is in flight.
    pub open spec fn wf(self) -> bool {
        &&& self.base_wf()
        &&& self.counts_ok()
    }

    /// The kernel invariant while `job` is admitted or dispatched but not in
    /// the queue: its slot's reference count accounts for it.
    pub open spec fn pending_wf(self, job: Job) -> bool {
        &&& self.base_wf()
        &&& self.job_ok(job)
        &&& forall|sid: int|
            0 <= sid < self.programs@.len() ==> (#[trigger] self.programs@[sid]).refcount
                == count_refs(self.job_queue@, sid) + (if sid == job.prog_id {
                1nat
            } else {
                0nat
            })
    }

    /// Frame ownership while image `p` is loaded but not yet registered in
    /// the arena: `p`'s frames are in use and bound to its filename, every
    /// other frame in use belongs to a live program, and `p`'s filename
    /// names no live program.
    pub open spec fn owners_ok_except(self, p: Program) -> bool {
        &&& forall|sid: int| #[trigger] self.live(sid) ==> self.owns_frames(sid)
        &&& forall|j: int|
            0 <= j < self.frame_table.frames@.len() && (
            #[trigger] self.frame_table.frames@[j]).valid ==> self.frame_covered(j)
                || p.page_table@.contains(j as usize)
        &&& forall|s1: int, s2: int|
            #[trigger] self.live(s1) && #[trigger] self.live(s2) && s1 != s2
                ==> self.programs@[s1].program.filename@ != self.programs@[s2].program.filename@
        &&& forall|sid: int|
            #[trigger] self.live(sid) ==> self.programs@[sid].program.filename@ != p.filename@
        &&& forall|k: int|
            0 <= k < p.page_table@.len() ==> {
                let f = self.frame_table.frames@[#[trigger] p.page_table@[k] as int];
                f.valid && f.owner is Some && f.owner.unwrap()@ == p.filename@
            }
    }

    /// The kernel invariant while image `p` is loaded but not yet wrapped
    /// in a job.
    pub open spec fn load_pending_wf(self, p: Program) -> bool {
        &&& self.frame_table.wf()
        &&& self.prog_memory.wf()
        &&& self.prog_memory.size == MEM_SIZE
        &&& self.var_memory.wf()
        &&& self.slots_wf()
        &&& self.queue_ok()
        &&& self.counts_ok()
        &&& self.owners_ok_except(p)
        &&& p.pt_wf()
    }

    /// Some queued job was admitted for `filename`.
    pub open spec fn queued_filename(self, filename: Seq<char>) -> bool {
        exists|i: int|
            0 <= i < self.job_queue@.len() && (#[trigger] self.job_queue@[i]).filename@ == filename
    }

    pub fn new(
        mode: Mode,
        prog_memory: ProgMemory,
        var_memory: VarMemory,
        frame_table: FrameTable,
    ) -> (k: Kernel)
        requires
            prog_memory.wf(),
            prog_memory.size == MEM_SIZE,
            var_memory.wf(),
            frame_table.wf(),
            forall|i: int| 0 <= i < NUM_FRAMES ==> frame_table.is_free(i),
        ensures
            k.wf(),
            k.job_queue@.len() == 0,
            k.programs@.len() == 0,
            k.next_pid == 0,
            k.mode == mode,
            k.prog_memory == prog_memory,
            k.var_memory == var_memory,
            k.frame_table == frame_table,
    {
        let k = Kernel {
            job_queue: VecDeque::new(),
            programs: Vec::new(),
            prog_memory,
            var_memory,
            frame_table,
            mode,
            next_pid: 0,
        };
        proof {
            assert forall|j: int|
                0 <= j < k.frame_table.frames@.len() implies !(
            #[trigger] k.frame_table.frames@[j]).valid by {
                assert(k.frame_table.is_free(j));
            }
        }
        k
    }

    pub fn get_mut_pmem(&mut self) -> (r: &mut ProgMemory)
        ensures
            *r == old(self).prog_memory,
            *final(self) == (Kernel { prog_memory: *final(r), ..*old(self) }),
    {
        &mut self.prog_memory
    }

    pub fn get_mut_varmem(&mut self) -> (r: &mut VarMemory)
        ensures
            *r == old(self).var_memory,
            *final(self) == (Kernel { var_memory: *final(r), ..*old(self) }),
    {
        &mut self.var_memory
    }

    pub fn get_mut_ft(&mut self) -> (r: &mut FrameTable)
        ensures
            *r == old(self).frame_table,
            *final(self) == (Kernel { frame_table: *final(r), ..*old(self) }),
    {
        &mut self.frame_table
    }

    /// Release a dispatched job's hold on its program image. The reference
    /// count drops by one; at zero the image's frames are all freed, exactly
    /// once — the kernel invariant rules a double free out. Returns the
    /// remaining holder count.
    pub fn dealloc_program(&mut self, job: Job) -> (r: Result<usize, KernelError>)
        requires
            old(self).pending_wf(job),
        ensures
            final(self).wf(),
            r == Ok::<usize, KernelError>(
                (old(self).programs@[job.prog_id as int].refcount - 1) as usize,
            ),
            final(self).programs@.len() == old(self).programs@.len(),
            forall|s: int|
                0 <= s < old(self).programs@.len() && s != job.prog_id
                    ==> final(self).programs@[s] == old(self).programs@[s],
            final(self).programs@[job.prog_id as int].program == old(self).programs@[job.prog_id
                as int].program,
            final(self).programs@[job.prog_id as int].refcount == old(self).programs@[job.prog_id
                as int].refcount - 1,
            final(self).job_queue@ == old(self).job_queue@,
            final(self).prog_memory == old(self).prog_memory,
            final(self).var_memory == old(self).var_memory,
            final(self).mode == old(self).mode,
            final(self).next_pid == old(self).next_pid,
            old(self).programs@[job.prog_id as int].refcount == 1 ==> crate::shellmemory::free_ok(
                old(self).frame_table,
                final(self).frame_table,
                old(self).programs@[job.prog_id as int].program.page_table@,
            ),
            old(self).programs@[job.prog_id as int].refcount > 1 ==> final(self).frame_table == old(
                self,
            ).frame_table,
    {
        let sid = job.prog_id;
        let rc = self.programs[sid].refcount;
        if rc == 1 {
            proof {
                assert(old(self).live(sid as int));
                assert(old(self).owns_frames(sid as int));
                assert(old(self).programs@[sid as int].program.pt_wf());
                let pt = old(self).programs@[sid as int].program.page_table@;
                assert forall|k: int|
                    0 <= k < pt.len() implies (#[trigger] pt[k]) < self.frame_table.frames@.len()
                    && self.frame_table.frames@[pt[k] as int].valid by {}
            }
            let res = self.frame_table.free_frames(&self.programs[sid].program.page_table);
            match res {
                Ok(_) => {},
                Err(_) => {
                    proof {
                        assert(false);
                    }
                    return Err(KernelError::IllegalState);
                },
            }
        }
        let ghost pre_programs = self.programs@;
        let mut sp = self.programs.remove(sid);
        sp.refcount = rc - 1;
        self.programs.insert(sid, sp);
        proof {
            assert(self.programs@ =~= pre_programs.update(
                sid as int,
                SharedProgram {
                    program: pre_programs[sid as int].program,
                    refcount: (rc - 1) as usize,
                },
            ));
            lemma_dealloc(*old(self), *self, job, rc as int);
        }
        Ok(rc - 1)
    }

    /// A diagnostic snapshot of memory by frame: each frame in use with
    /// the lines stored in its slots, in ascending frame order.
    pub fn memory_dump(&self) -> (r: Vec<(usize, Vec<String>)>)
        requires
            self.frame_table.wf(),
            self.prog_memory.wf(),
            self.prog_memory.size == MEM_SIZE,
        ensures
            r@.map_values(|p: (usize, Vec<String>)| (p.0, p.1.deep_view())) == memory_dump_upto(
                self.frame_table.frames@,
                self.prog_memory@,
                self.frame_table.frames@.len() as int,
            ),
    {
        let mut out: Vec<(usize, Vec<String>)> = Vec::new();
        let n = self.frame_table.frames.len();
        let mut i: usize = 0;
        while i < n
            invariant
                self.frame_table.wf(),
                self.prog_memory.wf(),
                self.prog_memory.size == MEM_SIZE,
                n == self.frame_table.frames@.len(),
                i <= n,
                out@.map_values(|p: (usize, Vec<String>)| (p.0, p.1.deep_view()))
                    == memory_dump_upto(self.frame_table.frames@, self.prog_memory@, i as int),
            decreases n - i,
        {
            if self.frame_table.frames[i].valid {
                let mut lines: Vec<String> = Vec::new();
                let mut k: usize = 0;
                while k < FRAME_SIZE
                    invariant
                        self.frame_table.wf(),
                        self.prog_memory.wf(),
                        self.prog_memory.size == MEM_SIZE,
                        n == self.frame_table.frames@.len(),
                        i < n,
                        k <= FRAME_SIZE,
                        lines@.len() == k,
                        forall|m: int|
                            0 <= m < k ==> (#[trigger] lines@[m])@ == self.prog_memory@[i
                                * FRAME_SIZE + m],
                    decreases FRAME_SIZE - k,
                {
                    let line = match self.prog_memory.read(i * FRAME_SIZE + k) {
                        Ok(l) => l,
                        Err(_) => {
                            proof {
                                assert(false);
                            }
                            String::new()
                        },
                    };
                    lines.push(line);
                    k += 1;
                }
                proof {
                    assert(lines.deep_view() =~= frame_lines(self.prog_memory@, i as int));
                }
                out.push((i, lines));
            }
            proof {
                assert(out@.map_values(|p: (usize, Vec<String>)| (p.0, p.1.deep_view()))
                    =~= memory_dump_upto(
                    self.frame_table.frames@,
                    self.prog_memory@,
                    i as int + 1,
                ));
            }
            i += 1;
        }
        out
    }

    /// Run one dispatched job to completion: fetch each logical line
    /// through the page table, split it into statements, dispatch each,
    /// and finally release the job's hold on its image. A dispatcher
    /// failure aborts the job's remaining lines; otherwise the program
    /// counter visits every line from 0 to the job's line count in order,
    /// crossing frame boundaries seamlessly.
    pub fn execute_program_fcfs(&mut self, job: Job, files: &Vec<ScriptFile>) -> (outcome:
        JobOutcome)
        requires
            old(self).pending_wf(job),
        ensures
            final(self).wf(),
            final(self).job_queue@ == old(self).job_queue@,
            final(self).prog_memory == old(self).prog_memory,
            final(self).next_pid == old(self).next_pid,
            final(self).programs@.len() == old(self).programs@.len(),
            forall|s: int|
                0 <= s < old(self).programs@.len() && s != job.prog_id
                    ==> final(self).programs@[s] == old(self).programs@[s],
            final(self).programs@[job.prog_id as int].refcount == old(self).programs@[job.prog_id
                as int].refcount - 1,
            final(self).programs@[job.prog_id as int].program == old(self).programs@[job.prog_id
                as int].program,
            old(self).programs@[job.prog_id as int].refcount == 1 ==> crate::shellmemory::free_ok(
                old(self).frame_table,
                final(self).frame_table,
                old(self).programs@[job.prog_id as int].program.page_table@,
            ),
            old(self).programs@[job.prog_id as int].refcount > 1 ==> final(self).frame_table == old(
                self,
            ).frame_table,
            !outcome.aborted ==> outcome.lines_run == job.size,
            outcome.lines_run <= job.size,
            ({
                let full = crate::interpreter::run_job_from(
                    old(self).prog_memory@,
                    old(self).programs@[job.prog_id as int].program.page_table@,
                    0,
                    job.size as int,
                    crate::shellmemory::var_views(old(self).var_memory.var_mem@),
                    old(self).mode,
                    files@,
                );
                &&& outcome.output.deep_view() == full.out
                &&& crate::shellmemory::var_views(final(self).var_memory.var_mem@) == full.vars
                &&& final(self).mode == full.mode
                &&& outcome.lines_run == full.stop
                &&& outcome.aborted == full.aborted
            }),
    {
        let limit = job.size;
        let mut pc: usize = job.pc;
        let mut output: Vec<String> = Vec::new();
        let mut aborted = false;
        let ghost mem0 = old(self).prog_memory@;
        let ghost pt = old(self).programs@[job.prog_id as int].program.page_table@;
        let ghost v0 = crate::shellmemory::var_views(old(self).var_memory.var_mem@);
        let ghost m0 = old(self).mode;
        let ghost full = crate::interpreter::run_job_from(
            mem0,
            pt,
            0,
            limit as int,
            v0,
            m0,
            files@,
        );
        proof {
            assert(full.out =~= output.deep_view() + full.out);
        }
        while pc < limit && !aborted
            invariant
                self.pending_wf(job),
                limit == job.size,
                pc <= limit,
                self.job_queue@ == old(self).job_queue@,
                self.prog_memory == old(self).prog_memory,
                self.programs@ == old(self).programs@,
                self.frame_table == old(self).frame_table,
                self.next_pid == old(self).next_pid,
                mem0 == old(self).prog_memory@,
                pt == old(self).programs@[job.prog_id as int].program.page_table@,
                full == crate::interpreter::run_job_from(mem0, pt, 0, limit as int, v0, m0, files@),
                !aborted ==> ({
                    let rem = crate::interpreter::run_job_from(
                        mem0,
                        pt,
                        pc as int,
                        limit as int,
                        crate::shellmemory::var_views(self.var_memory.var_mem@),
                        self.mode,
                        files@,
                    );
                    &&& full.out == output.deep_view() + rem.out
                    &&& full.vars == rem.vars
                    &&& full.mode == rem.mode
                    &&& full.stop == rem.stop
                    &&& full.aborted == rem.aborted
                }),
                aborted ==> ({
                    &&& full.out == output.deep_view()
                    &&& full.vars == crate::shellmemory::var_views(self.var_memory.var_mem@)
                    &&& full.mode == self.mode
                    &&& full.stop == pc as int
                    &&& full.aborted
                }),
            decreases limit - pc + (if aborted { 0int } else { 1int }),
        {
            proof {
                assert(self.live(job.prog_id as int));
                assert(self.programs@[job.prog_id as int].program.pt_wf());
                assert(pc / FRAME_SIZE
                    < self.programs@[job.prog_id as int].program.page_table@.len());
            }
            let fidx = self.programs[job.prog_id].program.page_table[pc / FRAME_SIZE];
            let addr = crate::job::find_mem_idx(fidx, pc);
            let line = match self.prog_memory.read(addr) {
                Ok(l) => l,
                Err(_) => {
                    proof {
                        assert(false);
                    }
                    String::new()
                },
            };
            proof {
                assert(line@ == mem0[crate::job::line_addr(pt, pc as int)]);
            }
            let pieces = crate::text::split_on_semi(line.as_str());
            let ghost stmts = pieces.deep_view();
            let ghost vl = crate::shellmemory::var_views(self.var_memory.var_mem@);
            let ghost ml = self.mode;
            let ghost outl = output.deep_view();
            let ghost fl = crate::interpreter::run_line_from(stmts, 0, vl, ml, files@);
            proof {
                assert(stmts == crate::text::split_semi(mem0[crate::job::line_addr(
                    pt,
                    pc as int,
                )]));
                assert(outl + fl.out =~= output.deep_view() + fl.out);
            }
            let mut si: usize = 0;
            let mut stopped = false;
            while si < pieces.len() && !stopped && !aborted
                invariant
                    self.pending_wf(job),
                    si <= pieces@.len(),
                    stmts == pieces.deep_view(),
                    fl == crate::interpreter::run_line_from(stmts, 0, vl, ml, files@),
                    self.job_queue@ == old(self).job_queue@,
                    self.prog_memory == old(self).prog_memory,
                    self.programs@ == old(self).programs@,
                    self.frame_table == old(self).frame_table,
                    self.next_pid == old(self).next_pid,
                    (!stopped && !aborted) ==> ({
                        let rl = crate::interpreter::run_line_from(
                            stmts,
                            si as int,
                            crate::shellmemory::var_views(self.var_memory.var_mem@),
                            self.mode,
                            files@,
                        );
                        &&& outl + fl.out == output.deep_view() + rl.out
                        &&& fl.vars == rl.vars
                        &&& fl.mode == rl.mode
                        &&& fl.aborted == rl.aborted
                    }),
                    (stopped || aborted) ==> ({
                        &&& outl + fl.out == output.deep_view()
                        &&& fl.vars == crate::shellmemory::var_views(self.var_memory.var_mem@)
                        &&& fl.mode == self.mode
                        &&& fl.aborted == aborted
                        &&& !(stopped && aborted)
                    }),
                decreases pieces@.len() - si + (if stopped || aborted { 0int } else { 1int }),
            {
                let ghost pre_v = crate::shellmemory::var_views(self.var_memory.var_mem@);
                let ghost pre_m = self.mode;
                let ghost pre_self = *self;
                let dr = crate::interpreter::dispatch_statement(
                    pieces[si].as_str(),
                    self,
                    files,
                    &mut output,
                );
                proof {
                    lemma_pending_var_mode(pre_self, *self, job);
                    assert(stmts[si as int] == pieces@[si as int]@);
                    let step = crate::interpreter::dispatch_spec(
                        stmts[si as int],
                        pre_v,
                        pre_m,
                        files@,
                    );
                    let rl_pre = crate::interpreter::run_line_from(
                        stmts,
                        si as int,
                        pre_v,
                        pre_m,
                        files@,
                    );
                    if step.result == crate::interpreter::DispatchResult::Continue {
                        let rl_next = crate::interpreter::run_line_from(
                            stmts,
                            si as int + 1,
                            step.vars,
                            step.mode,
                            files@,
                        );
                        assert(rl_pre.out == step.out + rl_next.out);
                        assert(outl + fl.out =~= output.deep_view() + rl_next.out);
                    } else {
                        assert(rl_pre.out == step.out);
                        assert(outl + fl.out =~= output.deep_view());
                    }
                }
                match dr {
                    crate::interpreter::DispatchResult::Continue => {
                        si += 1;
                    },
                    crate::interpreter::DispatchResult::StopLine => {
                        stopped = true;
                    },
                    crate::interpreter::DispatchResult::AbortJob => {
                        aborted = true;
                    },
                }
            }
            proof {
                if !stopped && !aborted {
                    let rl = crate::interpreter::run_line_from(
                        stmts,
                        si as int,
                        crate::shellmemory::var_views(self.var_memory.var_mem@),
                        self.mode,
                        files@,
                    );
                    assert(rl.out =~= Seq::<Seq<char>>::empty());
                    assert(outl + fl.out =~= output.deep_view());
                }
                let rem_pre = crate::interpreter::run_job_from(
                    mem0,
                    pt,
                    pc as int,
                    limit as int,
                    vl,
                    ml,
                    files@,
                );
                if fl.aborted {
                    assert(full.out =~= output.deep_view());
                } else {
                    let rem_next = crate::interpreter::run_job_from(
                        mem0,
                        pt,
                        pc as int + 1,
                        limit as int,
                        fl.vars,
                        fl.mode,
                        files@,
                    );
                    assert(rem_pre.out == fl.out + rem_next.out);
                    assert(full.out =~= output.deep_view() + rem_next.out);
                }
            }
            if !aborted {
                pc += 1;
            }
        }
        proof {
            if !aborted {
                let rem = crate::interpreter::run_job_from(
                    mem0,
                    pt,
                    pc as int,
                    limit as int,
                    crate::shellmemory::var_views(self.var_memory.var_mem@),
                    self.mode,
                    files@,
                );
                assert(rem.out =~= Seq::<Seq<char>>::empty());
                assert(full.out =~= output.deep_view());
            }
        }
        let res = self.dealloc_program(job);
        match res {
            Ok(_) => {},
            Err(_) => {
                proof {
                    assert(false);
                }
            },
        }
        JobOutcome { output, lines_run: pc, aborted }
    }

    /// Drain the queue in admission order, running each job to completion.
    /// With nothing queued, `EmptyQueue` is reported and nothing changes;
    /// otherwise the queue ends empty, every program image is released,
    /// every frame is free again, and the returned lines are exactly what
    /// `run_queue` says the queued jobs emit, front to back. Program
    /// memory itself is never touched.
    pub fn execute_fcfs_schedule(&mut self, files: &Vec<ScriptFile>) -> (r: Result<
        Vec<String>,
        KernelError,
    >)
        requires
            old(self).wf(),
        ensures
            final(self).wf(),
            final(self).prog_memory == old(self).prog_memory,
            final(self).next_pid == old(self).next_pid,
            final(self).programs@.len() == old(self).programs@.len(),
            forall|s: int|
                0 <= s < old(self).programs@.len() ==> (#[trigger] final(self).programs@[
                s]).program == old(self).programs@[s].program,
            match r {
                Ok(out) => {
                    &&& old(self).job_queue@.len() > 0
                    &&& final(self).job_queue@.len() == 0
                    &&& forall|s: int|
                        0 <= s < final(self).programs@.len() ==> (
                        #[trigger] final(self).programs@[s]).refcount == 0
                    &&& forall|j: int|
                        0 <= j < final(self).frame_table.frames@.len() ==> !(
                        #[trigger] final(self).frame_table.frames@[j]).valid
                    &&& ({
                        let qe = run_queue(
                            old(self).job_queue@,
                            old(self).programs@.map_values(|sp: SharedProgram| sp.program),
                            old(self).prog_memory@,
                            crate::shellmemory::var_views(old(self).var_memory.var_mem@),
                            old(self).mode,
                            files@,
                        );
                        &&& out.deep_view() == qe.out
                        &&& crate::shellmemory::var_views(final(self).var_memory.var_mem@)
                            == qe.vars
                        &&& final(self).mode == qe.mode
                    })
                },
                Err(e) => {
                    &&& e == KernelError::EmptyQueue
                    &&& old(self).job_queue@.len() == 0
                    &&& *final(self) == *old(self)
                },
            },
    {
        if self.job_queue.len() == 0 {
            return Err(KernelError::EmptyQueue);
        }
        let mut out: Vec<String> = Vec::new();
        let ghost mem0 = old(self).prog_memory@;
        let ghost progs0 = old(self).programs@.map_values(|sp: SharedProgram| sp.program);
        let ghost v0 = crate::shellmemory::var_views(old(self).var_memory.var_mem@);
        let ghost m0 = old(self).mode;
        let ghost qfull = run_queue(old(self).job_queue@, progs0, mem0, v0, m0, files@);
        proof {
            assert(qfull.out =~= out.deep_view() + qfull.out);
        }
        while self.job_queue.len() > 0
            invariant
                self.wf(),
                self.prog_memory == old(self).prog_memory,
                self.next_pid == old(self).next_pid,
                mem0 == old(self).prog_memory@,
                self.programs@.map_values(|sp: SharedProgram| sp.program) == progs0,
                qfull == run_queue(old(self).job_queue@, progs0, mem0, v0, m0, files@),
                ({
                    let rem = run_queue(
                        self.job_queue@,
                        progs0,
                        mem0,
                        crate::shellmemory::var_views(self.var_memory.var_mem@),
                        self.mode,
                        files@,
                    );
                    &&& qfull.out == out.deep_view() + rem.out
                    &&& qfull.vars == rem.vars
                    &&& qfull.mode == rem.mode
                }),
            decreases self.job_queue@.len(),
        {
            let ghost pre = *self;
            let job = match self.job_queue.pop_front() {
                Some(j) => j,
                None => {
                    proof {
                        assert(false);
                    }
                    return Err(KernelError::EmptyQueue);
                },
            };
            proof {
                assert(pre.job_ok(job));
                assert(self.job_queue@ =~= pre.job_queue@.drop_first());
                assert forall|s: int|
                    0 <= s < self.programs@.len() implies (#[trigger] self.programs@[s]).refcount
                    == count_refs(self.job_queue@, s) + (if s == job.prog_id {
                    1nat
                } else {
                    0nat
                }) by {
                    assert(pre.programs@[s].refcount == count_refs(pre.job_queue@, s));
                }
                assert forall|i: int|
                    0 <= i < self.job_queue@.len() implies self.job_ok(
                    #[trigger] self.job_queue@[i]) by {
                    assert(pre.job_ok(pre.job_queue@[i + 1]));
                }
                lemma_owners_same(pre, *self);
                lemma_slots_same(pre, *self);
            }
            let ghost popped = *self;
            let ghost out_pre = out.deep_view();
            let outcome = self.execute_program_fcfs(job, files);
            let mut o = outcome.output;
            proof {
                assert(popped.programs@[job.prog_id as int].program == progs0[job.prog_id as int]);
            }
            out.append(&mut o);
            proof {
                let jf = crate::interpreter::run_job_from(
                    mem0,
                    progs0[job.prog_id as int].page_table@,
                    0,
                    job.size as int,
                    crate::shellmemory::var_views(popped.var_memory.var_mem@),
                    popped.mode,
                    files@,
                );
                let rest = run_queue(
                    popped.job_queue@,
                    progs0,
                    mem0,
                    jf.vars,
                    jf.mode,
                    files@,
                );
                assert(out.deep_view() =~= out_pre + jf.out);
                assert(run_queue(
                    pre.job_queue@,
                    progs0,
                    mem0,
                    crate::shellmemory::var_views(pre.var_memory.var_mem@),
                    pre.mode,
                    files@,
                ).out == jf.out + rest.out);
                assert(qfull.out =~= out.deep_view() + rest.out);
                assert forall|sp: int|
                    0 <= sp < self.programs@.len() implies self.programs@[sp].program == (
                #[trigger] progs0[sp]) by {
                    assert(self.programs@[sp].program == popped.programs@[sp].program);
                }
                assert(self.programs@.map_values(|sp2: SharedProgram| sp2.program) =~= progs0);
            }
        }
        proof {
            let rem = run_queue(
                self.job_queue@,
                progs0,
                mem0,
                crate::shellmemory::var_views(self.var_memory.var_mem@),
                self.mode,
                files@,
            );
            assert(rem.out =~= Seq::<Seq<char>>::empty());
            assert(qfull.out =~= out.deep_view());
            lemma_idle_kernel_all_free(*self);
            assert(self.programs@.len() == old(self).programs@.len());
            assert forall|sp: int|
                0 <= sp < old(self).programs@.len() implies (#[trigger] self.programs@[
            sp]).program == old(self).programs@[sp].program by {
                assert(self.programs@.map_values(|sp2: SharedProgram| sp2.program)[sp]
                    == progs0[sp]);
            }
        }
        Ok(out)
    }

    /// Append an admitted job to the queue tail. Admission order is kept
    /// whatever the configured mode.
    pub fn queue_job(&mut self, job: Job)
        requires
            old(self).pending_wf(job),
        ensures
            final(self).wf(),
            final(self).job_queue@ == old(self).job_queue@.push(job),
            final(self).programs@ == old(self).programs@,
            final(self).prog_memory == old(self).prog_memory,
            final(self).var_memory == old(self).var_memory,
            final(self).frame_table == old(self).frame_table,
            final(self).mode == old(self).mode,
            final(self).next_pid == old(self).next_pid,
    {
        match self.mode {
            Mode::FCFS => self.job_queue.push_back(job),
            Mode::RR => self.job_queue.push_back(job),
            Mode::SJF => self.job_queue.push_back(job),
        }
        proof {
            assert forall|sid: int|
                0 <= sid < self.programs@.len() implies (#[trigger] self.programs@[sid]).refcount
                == count_refs(self.job_queue@, sid) by {
                lemma_count_refs_push(old(self).job_queue@, job, sid);
            }
            assert forall|i: int|
                0 <= i < self.job_queue@.len() implies self.job_ok(
                #[trigger] self.job_queue@[i]) by {
                if i < old(self).job_queue@.len() {
                    assert(old(self).job_ok(old(self).job_queue@[i]));
                } else {
                    assert(self.job_queue@[i] == job);
                    assert(old(self).job_ok(job));
                }
            }
            lemma_owners_same(*old(self), *self);
            lemma_slots_same(*old(self), *self);
        }
    }
}

} // verus!
