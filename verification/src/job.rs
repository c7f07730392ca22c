//! Program images and jobs: loading a script into paged memory, issuing
//! process ids, and the two admission paths (fresh load and shared image).

use vstd::prelude::*;
use vstd::string::StringExecFns;
use crate::errors::KernelError;
use crate::kernel::{Kernel, SharedProgram};
use crate::shellmemory::{alloc_ok, translate, FRAME_SIZE, MEM_SIZE, NUM_FRAMES};
use crate::text::str_eq;

verus! {

/// What reading a script file produced. The kernel core never touches the
/// file system itself; callers hand it the outcome of the read as a value.
pub enum FileRead {
    /// The file was opened and read completely, in source order.
    Lines(Vec<String>),
    /// The file could not be opened.
    OpenFailed,
    /// Reading failed at the given line index.
    ReadFailed(usize),
}

/// A filename together with the outcome of reading it.
pub struct ScriptFile {
    pub filename: String,
    pub content: FileRead,
}

/// Issue the next process id: ids are strictly increasing and never reused.
pub fn assign_pid(next_pid: &mut i64) -> (pid: i64)
    requires
        *old(next_pid) < i64::MAX,
    ensures
        *final(next_pid) == *old(next_pid) + 1,
        pid == *old(next_pid),
{
    let p = *next_pid;
    *next_pid = *next_pid + 1;
    p
}

/// The physical line slot of logical line `pc` in frame `frame_idx`.
pub fn find_mem_idx(frame_idx: usize, pc: usize) -> (r: usize)
    requires
        frame_idx < NUM_FRAMES,
    ensures
        r == translate(frame_idx as int, pc as int),
        r < MEM_SIZE,
{
    let offset = pc % FRAME_SIZE;
    FRAME_SIZE * frame_idx + offset
}

/// How many frames a program of `size` lines needs.
pub open spec fn frames_needed(size: int) -> int {
    (size + (FRAME_SIZE as int) - 1) / (FRAME_SIZE as int)
}

/// An immutable loaded script image: its source name, its line count, and
/// the ordered frame ids its lines were written into.
pub struct Program {
    pub filename: String,
    pub size: usize,
    pub page_table: Vec<usize>,
}

/// The physical slot of logical line `i` under page table `pt`.
pub open spec fn line_addr(pt: Seq<usize>, i: int) -> int {
    translate(pt[i / (FRAME_SIZE as int)] as int, i)
}

/// Whether slot `a` is one of the first `num_lines` line slots of `pt`.
pub open spec fn written_addr(pt: Seq<usize>, num_lines: int, a: int) -> bool {
    exists|i: int| 0 <= i < num_lines && a == #[trigger] line_addr(pt, i)
}

/// Distinct logical lines of one program live in distinct physical slots.
pub proof fn lemma_line_addr_inj(pt: Seq<usize>, i1: int, i2: int)
    requires
        forall|k1: int, k2: int| 0 <= k1 < k2 < pt.len() ==> pt[k1] < pt[k2],
        0 <= i1,
        0 <= i2,
        i1 != i2,
        i1 / (FRAME_SIZE as int) < pt.len(),
        i2 / (FRAME_SIZE as int) < pt.len(),
    ensures
        line_addr(pt, i1) != line_addr(pt, i2),
{
    let fs = FRAME_SIZE as int;
    let q1 = i1 / fs;
    let q2 = i2 / fs;
    if q1 == q2 {
        assert(i1 % fs != i2 % fs);
    } else if q1 < q2 {
        assert(pt[q1] < pt[q2]);
        assert((pt[q1] as int) * fs + i1 % fs < (pt[q2] as int) * fs + i2 % fs);
    } else {
        assert(pt[q2] < pt[q1]);
        assert((pt[q2] as int) * fs + i2 % fs < (pt[q1] as int) * fs + i1 % fs);
    }
}

/// A successful load of `lines` as image `p`: the page table took the
/// lowest free frames, each logical line sits at its translated slot, no
/// other memory slot moved, and nothing else of the kernel changed.
pub open spec fn loaded_ok(pre: Kernel, post: Kernel, p: Program, lines: Seq<Seq<char>>) -> bool {
    &&& p.size == lines.len()
    &&& p.pt_wf()
    &&& alloc_ok(
        pre.frame_table,
        post.frame_table,
        p.page_table@,
        frames_needed(lines.len() as int),
        p.filename@,
    )
    &&& forall|i: int|
        0 <= i < lines.len() ==> post.prog_memory@[#[trigger] line_addr(p.page_table@, i)]
            == lines[i]
    &&& forall|a: int|
        0 <= a < pre.prog_memory@.len() && !written_addr(p.page_table@, lines.len() as int, a)
            ==> post.prog_memory@[a] == pre.prog_memory@[a]
    &&& post.prog_memory.size == pre.prog_memory.size
    &&& post.job_queue@ == pre.job_queue@
    &&& post.programs@ == pre.programs@
    &&& post.var_memory == pre.var_memory
    &&& post.mode == pre.mode
    &&& post.next_pid == pre.next_pid
}

/// Law (round trip): after a load, reading logical lines `0..L` back
/// through page-table translation reproduces the script's lines in source
/// order — each slot `translate(pt[i / FRAME_SIZE], i)` holds line `i`,
/// which is what `ProgMemory::read_from_frame` returns for it.
pub proof fn lemma_load_round_trip(
    pre: Kernel,
    post: Kernel,
    p: Program,
    lines: Seq<Seq<char>>,
    i: int,
)
    requires
        loaded_ok(pre, post, p, lines),
        0 <= i < lines.len(),
    ensures
        0 <= i / (FRAME_SIZE as int) < p.page_table@.len(),
        post.prog_memory@[translate(p.page_table@[i / (FRAME_SIZE as int)] as int, i)] == lines[i],
{
    assert(post.prog_memory@[line_addr(p.page_table@, i)] == lines[i]);
}

impl Program {
    /// Page-table structure: exactly as many frames as the line count
    /// needs, each id in range, in strictly ascending order.
    pub open spec fn pt_wf(self) -> bool {
        &&& self.page_table@.len() == frames_needed(self.size as int)
        &&& forall|k: int|
            0 <= k < self.page_table@.len() ==> (#[trigger] self.page_table@[k]) < NUM_FRAMES
        &&& forall|k1: int, k2: int|
            0 <= k1 < k2 < self.page_table@.len() ==> self.page_table@[k1] < self.page_table@[k2]
    }

    /// Load a script image: refuse a filename that is already live
    /// (`AlreadyLoaded`), surface the file-read outcome (`OpenError`,
    /// `ReadError`), take `ceil(lines / FRAME_SIZE)` frames all-or-nothing
    /// (`OutOfMemory` rejects the admission with nothing changed), and
    /// write the lines through frame translation in source order.
    pub fn new(kern: &mut Kernel, filename: &str, content: &FileRead) -> (r: Result<
        Program,
        KernelError,
    >)
        requires
            old(kern).wf(),
        ensures
            match r {
                Ok(p) => {
                    &&& !old(kern).queued_filename(filename@)
                    &&& p.filename@ == filename@
                    &&& final(kern).load_pending_wf(p)
                    &&& (content matches FileRead::Lines(lines) && loaded_ok(
                        *old(kern),
                        *final(kern),
                        p,
                        lines.deep_view(),
                    ))
                },
                Err(e) => {
                    &&& *final(kern) == *old(kern)
                    &&& match e {
                        KernelError::AlreadyLoaded => old(kern).queued_filename(filename@),
                        KernelError::OpenError => !old(kern).queued_filename(filename@)
                            && content is OpenFailed,
                        KernelError::ReadError(ix) => !old(kern).queued_filename(filename@) && (
                        content matches FileRead::ReadFailed(i) && ix == i),
                        KernelError::OutOfMemory => !old(kern).queued_filename(filename@) && (
                        content matches FileRead::Lines(lines)
                            && old(kern).frame_table.free_count() < frames_needed(
                            lines.deep_view().len() as int,
                        )),
                        _ => false,
                    }
                },
            },
            (!old(kern).queued_filename(filename@) && (content matches FileRead::Lines(lines)
                && old(kern).frame_table.free_count() >= frames_needed(
                lines.deep_view().len() as int,
            ))) ==> r is Ok,
    {
        let qn = kern.job_queue.len();
        let mut qi: usize = 0;
        while qi < qn
            invariant
                *kern == *old(kern),
                qn == kern.job_queue@.len(),
                qi <= qn,
                forall|i: int|
                    0 <= i < qi ==> (#[trigger] kern.job_queue@[i]).filename@ != filename@,
            decreases qn - qi,
        {
            if str_eq(kern.job_queue[qi].filename.as_str(), filename) {
                return Err(KernelError::AlreadyLoaded);
            }
            qi += 1;
        }
        proof {
            if kern.queued_filename(filename@) {
                let i = choose|i: int|
                    0 <= i < kern.job_queue@.len() && (#[trigger] kern.job_queue@[i]).filename@
                        == filename@;
                assert(false);
            }
        }
        let lines: &Vec<String> = match content {
            FileRead::Lines(ls) => ls,
            FileRead::OpenFailed => {
                return Err(KernelError::OpenError);
            },
            FileRead::ReadFailed(ix) => {
                return Err(KernelError::ReadError(*ix));
            },
        };
        let size = lines.len();
        let num_frames = size / FRAME_SIZE + (if size % FRAME_SIZE != 0 {
            1
        } else {
            0
        });
        assert(num_frames == frames_needed(size as int));
        let pt = match kern.frame_table.alloc_frames(num_frames, String::from_str(filename)) {
            Ok(ids) => ids,
            Err(e) => {
                return Err(e);
            },
        };
        let ghost mid = *kern;
        let mut li: usize = 0;
        while li < size
            invariant
                old(kern).wf(),
                size == lines@.len(),
                li <= size,
                kern.frame_table == mid.frame_table,
                kern.frame_table.wf(),
                kern.job_queue@ == old(kern).job_queue@,
                kern.programs@ == old(kern).programs@,
                kern.var_memory == old(kern).var_memory,
                kern.mode == old(kern).mode,
                kern.next_pid == old(kern).next_pid,
                kern.prog_memory.wf(),
                kern.prog_memory.size == MEM_SIZE,
                kern.prog_memory.size == old(kern).prog_memory.size,
                old(kern).prog_memory@.len() == MEM_SIZE,
                kern.prog_memory@.len() == MEM_SIZE,
                alloc_ok(
                    old(kern).frame_table,
                    kern.frame_table,
                    pt@,
                    frames_needed(size as int),
                    filename@,
                ),
                pt@.len() == frames_needed(size as int),
                forall|k: int| 0 <= k < pt@.len() ==> (#[trigger] pt@[k]) < NUM_FRAMES,
                forall|k1: int, k2: int| 0 <= k1 < k2 < pt@.len() ==> pt@[k1] < pt@[k2],
                forall|i2: int|
                    0 <= i2 < li ==> kern.prog_memory@[#[trigger] line_addr(pt@, i2)]
                        == lines@[i2]@,
                forall|a: int|
                    0 <= a < MEM_SIZE && !written_addr(pt@, li as int, a)
                        ==> kern.prog_memory@[a] == old(kern).prog_memory@[a],
            decreases size - li,
        {
            assert(li / FRAME_SIZE < pt@.len());
            let fidx = pt[li / FRAME_SIZE];
            let res = kern.prog_memory.write_to_frame(fidx, li, lines[li].clone());
            proof {
                assert(translate(fidx as int, li as int) == line_addr(pt@, li as int));
                assert(line_addr(pt@, li as int) < MEM_SIZE);
            }
            match res {
                Ok(_) => {},
                Err(_) => {
                    proof {
                        assert(false);
                    }
                    return Err(KernelError::IllegalState);
                },
            }
            proof {
                let a_new = line_addr(pt@, li as int);
                assert forall|i2: int|
                    0 <= i2 < li + 1 implies kern.prog_memory@[#[trigger] line_addr(pt@, i2)]
                    == lines@[i2]@ by {
                    if i2 < li {
                        lemma_line_addr_inj(pt@, i2, li as int);
                    }
                }
                assert forall|a: int|
                    0 <= a < MEM_SIZE && !written_addr(pt@, li as int + 1, a)
                    implies kern.prog_memory@[a] == old(kern).prog_memory@[a] by {
                    assert(!written_addr(pt@, li as int, a));
                    assert(a != a_new);
                }
            }
            li += 1;
        }
        let p = Program { filename: String::from_str(filename), size, page_table: pt };
        proof {
            crate::kernel::lemma_load_pending(*old(kern), *kern, p);
            assert forall|i: int|
                0 <= i < size implies lines.deep_view()[i] == lines@[i]@ by {}
        }
        Ok(p)
    }
}

/// One scheduled execution of a program: its own pid and program counter,
/// a copy of the image's line count and filename, and the arena slot of
/// the shared image.
#[derive(Clone)]
pub struct Job {
    pub pid: i64,
    pub pc: usize,
    pub size: usize,
    pub filename: String,
    pub prog_id: usize,
}

/// The index of the first job from `i` on admitted for `filename`, or the
/// queue length.
pub open spec fn first_queued_from(q: Seq<Job>, i: int, filename: Seq<char>) -> int
    decreases q.len() - i,
{
    if i < 0 || i >= q.len() {
        q.len() as int
    } else if q[i].filename@ == filename {
        i
    } else {
        first_queued_from(q, i + 1, filename)
    }
}

/// The index of the first job admitted for `filename`, or the queue length.
pub open spec fn first_queued(q: Seq<Job>, filename: Seq<char>) -> int {
    first_queued_from(q, 0, filename)
}

/// Bounds and meaning of the first-queued index.
pub proof fn lemma_first_queued_char(q: Seq<Job>, i: int, filename: Seq<char>)
    requires
        0 <= i <= q.len(),
    ensures
        i <= first_queued_from(q, i, filename) <= q.len(),
        first_queued_from(q, i, filename) < q.len() ==> q[first_queued_from(
            q,
            i,
            filename,
        )].filename@ == filename,
        forall|t: int|
            i <= t < first_queued_from(q, i, filename) ==> (#[trigger] q[t]).filename@ != filename,
    decreases q.len() - i,
{
    if i < q.len() && q[i].filename@ != filename {
        lemma_first_queued_char(q, i + 1, filename);
    }
}

/// With no job referencing a slot, its reference count is zero.
proof fn lemma_count_refs_none(q: Seq<Job>, sid: int)
    requires
        forall|i: int| 0 <= i < q.len() ==> (#[trigger] q[i]).prog_id != sid,
    ensures
        crate::kernel::count_refs(q, sid) == 0,
    decreases q.len(),
{
    if q.len() > 0 {
        assert(q[0].prog_id != sid);
        assert(forall|i: int|
            0 <= i < q.drop_first().len() ==> (#[trigger] q.drop_first()[i]).prog_id != sid);
        lemma_count_refs_none(q.drop_first(), sid);
    }
}

/// Registering a freshly loaded image as a new arena slot with one holder
/// yields the admission-pending invariant.
proof fn lemma_fresh_admission(pre: Kernel, post: Kernel, p: Program, job: Job)
    requires
        pre.load_pending_wf(p),
        job.pc == 0,
        job.prog_id == pre.programs@.len(),
        job.size == p.size,
        job.filename@ == p.filename@,
        post.programs@ == pre.programs@.push(SharedProgram { program: p, refcount: 1 }),
        post.job_queue@ == pre.job_queue@,
        post.frame_table == pre.frame_table,
        post.prog_memory == pre.prog_memory,
        post.var_memory == pre.var_memory,
    ensures
        post.pending_wf(job),
{
    let sid = job.prog_id as int;
    assert(post.programs@[sid].program == p);
    assert forall|s: int| #[trigger] post.live(s) && s != sid implies pre.live(s) by {}
    assert forall|s: int| #[trigger] pre.live(s) implies post.live(s) && s != sid by {}
    assert forall|s: int| #[trigger] post.live(s) implies post.owns_frames(s) by {
        if s != sid {
            assert(pre.live(s));
            assert(pre.owns_frames(s));
            assert(post.programs@[s].program == pre.programs@[s].program);
        }
    }
    assert forall|j: int|
        0 <= j < post.frame_table.frames@.len() && (#[trigger] post.frame_table.frames@[j]).valid
        implies post.frame_covered(j) by {
        if p.page_table@.contains(j as usize) {
            assert(post.live(sid) && post.programs@[sid].program.page_table@.contains(j as usize));
        } else {
            assert(pre.frame_covered(j));
            let s = choose|s: int|
                #[trigger] pre.live(s) && pre.programs@[s].program.page_table@.contains(j as usize);
            assert(post.live(s) && post.programs@[s].program.page_table@.contains(j as usize));
        }
    }
    assert forall|s1: int, s2: int|
        #[trigger] post.live(s1) && #[trigger] post.live(s2) && s1 != s2 implies post.programs@[
        s1
    ].program.filename@ != post.programs@[s2].program.filename@ by {
        if s1 != sid && s2 != sid {
            assert(pre.live(s1) && pre.live(s2));
        } else if s1 == sid {
            assert(pre.live(s2));
        } else {
            assert(pre.live(s1));
        }
    }
    assert forall|s: int| #[trigger] post.live(s) implies post.programs@[s].program.pt_wf() by {
        if s != sid {
            assert(pre.live(s));
        }
    }
    assert forall|i: int|
        0 <= i < post.job_queue@.len() implies post.job_ok(#[trigger] post.job_queue@[i]) by {
        assert(pre.job_ok(pre.job_queue@[i]));
    }
    assert forall|s: int|
        0 <= s < post.programs@.len() implies (#[trigger] post.programs@[s]).refcount
        == crate::kernel::count_refs(post.job_queue@, s) + (if s == sid {
        1nat
    } else {
        0nat
    }) by {
        if s == sid {
            assert forall|i: int|
                0 <= i < pre.job_queue@.len() implies (#[trigger] pre.job_queue@[i]).prog_id
                != sid by {
                assert(pre.job_ok(pre.job_queue@[i]));
            }
            lemma_count_refs_none(pre.job_queue@, sid);
        } else {
            assert(pre.programs@[s].refcount == crate::kernel::count_refs(pre.job_queue@, s));
        }
    }
}

/// Raising the holder count of the slot a queued job references yields the
/// admission-pending invariant for the sharing job.
proof fn lemma_shared_admission(pre: Kernel, post: Kernel, i: int, job: Job)
    requires
        pre.wf(),
        0 <= i < pre.job_queue@.len(),
        job.pc == 0,
        job.prog_id == pre.job_queue@[i].prog_id,
        job.size == pre.programs@[job.prog_id as int].program.size,
        job.filename@ == pre.job_queue@[i].filename@,
        pre.programs@[job.prog_id as int].refcount < usize::MAX,
        post.programs@ == pre.programs@.update(
            job.prog_id as int,
            SharedProgram {
                program: pre.programs@[job.prog_id as int].program,
                refcount: (pre.programs@[job.prog_id as int].refcount + 1) as usize,
            },
        ),
        post.job_queue@ == pre.job_queue@,
        post.frame_table == pre.frame_table,
        post.prog_memory == pre.prog_memory,
        post.var_memory == pre.var_memory,
    ensures
        post.pending_wf(job),
{
    let sid = job.prog_id as int;
    assert(pre.job_ok(pre.job_queue@[i]));
    assert(0 <= sid < pre.programs@.len());
    assert(post.programs@[sid].program == pre.programs@[sid].program);
    assert forall|s: int| 0 <= s < post.programs@.len() implies #[trigger] post.programs@[
        s
    ].program == pre.programs@[s].program by {}
    assert(pre.live(sid)) by {
        crate::kernel::lemma_count_refs_at(pre.job_queue@, i, sid);
    }
    assert forall|s: int| #[trigger] post.live(s) implies pre.live(s) by {}
    assert forall|s: int| #[trigger] pre.live(s) implies post.live(s) by {}
    assert forall|s: int| #[trigger] post.live(s) implies post.owns_frames(s) by {
        assert(pre.live(s));
        assert(pre.owns_frames(s));
    }
    assert forall|j: int|
        0 <= j < post.frame_table.frames@.len() && (#[trigger] post.frame_table.frames@[j]).valid
        implies post.frame_covered(j) by {
        assert(pre.frame_covered(j));
        let s = choose|s: int|
            #[trigger] pre.live(s) && pre.programs@[s].program.page_table@.contains(j as usize);
        assert(post.live(s) && post.programs@[s].program.page_table@.contains(j as usize));
    }
    assert forall|s1: int, s2: int|
        #[trigger] post.live(s1) && #[trigger] post.live(s2) && s1 != s2 implies post.programs@[
        s1
    ].program.filename@ != post.programs@[s2].program.filename@ by {
        assert(pre.live(s1) && pre.live(s2));
    }
    assert forall|s: int| #[trigger] post.live(s) implies post.programs@[s].program.pt_wf() by {
        assert(pre.live(s));
    }
    assert forall|ii: int|
        0 <= ii < post.job_queue@.len() implies post.job_ok(#[trigger] post.job_queue@[ii]) by {
        assert(pre.job_ok(pre.job_queue@[ii]));
    }
    assert forall|s: int|
        0 <= s < post.programs@.len() implies (#[trigger] post.programs@[s]).refcount
        == crate::kernel::count_refs(post.job_queue@, s) + (if s == sid {
        1nat
    } else {
        0nat
    }) by {
        assert(pre.programs@[s].refcount == crate::kernel::count_refs(pre.job_queue@, s));
    }
}

impl Job {
    /// Admit a job. With a freshly loaded image (`size` and `program` both
    /// given) the image is registered with one holder and wrapped. With
    /// neither given, the sharing path looks for the first queued job with
    /// the same filename, raises its image's holder count, and shares it;
    /// `NoSuchJob` reports the inconsistent state in which no such job
    /// exists. Any other combination of arguments is an `IllegalState`.
    /// Every admitted job gets a fresh, strictly increasing pid.
    pub fn new(size: Option<usize>, filename: String, program: Option<Program>, kern: &mut Kernel)
        -> (r: Result<Job, KernelError>)
        requires
            (size is Some && program is Some) ==> {
                &&& old(kern).load_pending_wf(program.unwrap())
                &&& size.unwrap() == program.unwrap().size
                &&& program.unwrap().filename@ == filename@
            },
            (size is None && program is None) ==> old(kern).wf(),
            old(kern).next_pid < i64::MAX,
        ensures
            match r {
                Ok(job) => {
                    &&& final(kern).pending_wf(job)
                    &&& job.pid == old(kern).next_pid
                    &&& final(kern).next_pid == old(kern).next_pid + 1
                    &&& job.pc == 0
                    &&& job.filename@ == filename@
                    &&& final(kern).job_queue@ == old(kern).job_queue@
                    &&& final(kern).prog_memory == old(kern).prog_memory
                    &&& final(kern).var_memory == old(kern).var_memory
                    &&& final(kern).frame_table == old(kern).frame_table
                    &&& final(kern).mode == old(kern).mode
                    &&& (program is Some ==> {
                        &&& job.size == program.unwrap().size
                        &&& job.prog_id == old(kern).programs@.len()
                        &&& final(kern).programs@ == old(kern).programs@.push(
                            (SharedProgram { program: program.unwrap(), refcount: 1 }),
                        )
                    })
                    &&& (program is None ==> {
                        let q = old(kern).job_queue@;
                        let i = first_queued(q, filename@);
                        &&& 0 <= i < q.len()
                        &&& q[i].filename@ == filename@
                        &&& job.prog_id == q[i].prog_id
                        &&& job.size == old(kern).programs@[q[i].prog_id as int].program.size
                        &&& final(kern).programs@[job.prog_id as int].refcount == old(
                            kern,
                        ).programs@[job.prog_id as int].refcount + 1
                        &&& final(kern).programs@[job.prog_id as int].program == old(
                            kern,
                        ).programs@[job.prog_id as int].program
                        &&& forall|s: int|
                            0 <= s < old(kern).programs@.len() && s != job.prog_id
                                ==> final(kern).programs@[s] == old(kern).programs@[s]
                        &&& final(kern).programs@.len() == old(kern).programs@.len()
                    })
                },
                Err(e) => {
                    &&& *final(kern) == *old(kern)
                    &&& match e {
                        KernelError::NoSuchJob => size is None && program is None && !old(
                            kern,
                        ).queued_filename(filename@),
                        KernelError::IllegalState => (size is Some) != (program is Some) || (size
                            is None && program is None && old(kern).queued_filename(filename@)
                            && old(kern).programs@[old(kern).job_queue@[first_queued(
                            old(kern).job_queue@,
                            filename@,
                        )].prog_id as int].refcount == usize::MAX),
                        _ => false,
                    }
                },
            },
            (size is Some && program is Some) ==> r is Ok,
            (size is None && program is None && old(kern).queued_filename(filename@) && old(
                kern,
            ).programs@[old(kern).job_queue@[first_queued(old(kern).job_queue@, filename@)].prog_id
                as int].refcount < usize::MAX) ==> r is Ok,
    {
        if program.is_none() && size.is_none() {
            let qn = kern.job_queue.len();
            let mut i: usize = 0;
            while i < qn
                invariant
                    size is None,
                    program is None,
                    old(kern).wf(),
                    *kern == *old(kern),
                    old(kern).next_pid < i64::MAX,
                    qn == kern.job_queue@.len(),
                    i <= qn,
                    first_queued(kern.job_queue@, filename@) == first_queued_from(
                        kern.job_queue@,
                        i as int,
                        filename@,
                    ),
                    forall|j: int|
                        0 <= j < i ==> (#[trigger] kern.job_queue@[j]).filename@ != filename@,
                decreases qn - i,
            {
                if str_eq(kern.job_queue[i].filename.as_str(), filename.as_str()) {
                    proof {
                        assert(first_queued(kern.job_queue@, filename@) == i as int);
                        assert(kern.job_ok(kern.job_queue@[i as int]));
                    }
                    let sid = kern.job_queue[i].prog_id;
                    let rc = kern.programs[sid].refcount;
                    if rc == usize::MAX {
                        proof {
                            assert(kern.queued_filename(filename@));
                        }
                        return Err(KernelError::IllegalState);
                    }
                    let psize = kern.programs[sid].program.size;
                    let ghost pre_programs = kern.programs@;
                    let mut sp = kern.programs.remove(sid);
                    sp.refcount = rc + 1;
                    kern.programs.insert(sid, sp);
                    proof {
                        assert(kern.programs@ =~= pre_programs.update(
                            sid as int,
                            SharedProgram {
                                program: pre_programs[sid as int].program,
                                refcount: (rc + 1) as usize,
                            },
                        ));
                    }
                    let pid = assign_pid(&mut kern.next_pid);
                    let job = Job { pid, pc: 0, size: psize, filename, prog_id: sid };
                    proof {
                        lemma_shared_admission(*old(kern), *kern, i as int, job);
                    }
                    return Ok(job);
                }
                i += 1;
            }
            proof {
                if kern.queued_filename(filename@) {
                    let j = choose|j: int|
                        0 <= j < kern.job_queue@.len() && (#[trigger] kern.job_queue@[j]).filename@
                            == filename@;
                    assert(false);
                }
            }
            return Err(KernelError::NoSuchJob);
        }
        match (size, program) {
            (Some(s), Some(p)) => {
                let sid = kern.programs.len();
                let ghost pp = p;
                kern.programs.push(SharedProgram { program: p, refcount: 1 });
                let pid = assign_pid(&mut kern.next_pid);
                let job = Job { pid, pc: 0, size: s, filename, prog_id: sid };
                proof {
                    lemma_fresh_admission(*old(kern), *kern, pp, job);
                }
                Ok(job)
            },
            _ => Err(KernelError::IllegalState),
        }
    }
}

} // verus!
