//! Physical memory model: the frame table that owns the fixed set of frames,
//! the flat program-line memory addressed through frame translation, and the
//! key-value variable memory.

use vstd::prelude::*;
use crate::errors::KernelError;

verus! {

/// Number of line slots in one frame.
pub const FRAME_SIZE: usize = 4;
/// Total number of line slots in program memory.
pub const MEM_SIZE: usize = 80;
/// Number of slots in variable memory.
pub const VAR_SIZE: usize = 100;
/// Number of allocatable frames.
pub const NUM_FRAMES: usize = MEM_SIZE / FRAME_SIZE;

/// One physical frame: `valid` means in use, and then `owner` names the
/// program (by filename) the frame is bound to.
pub struct Frame {
    pub valid: bool,
    pub id: usize,
    pub owner: Option<String>,
}

impl Frame {
    pub fn new(id: usize) -> (f: Frame)
        ensures
            !f.valid,
            f.id == id,
            f.owner is None,
    {
        Frame { valid: false, id, owner: None }
    }

    pub fn set_invalid(&mut self)
        ensures
            !final(self).valid,
            final(self).id == old(self).id,
            final(self).owner is None,
    {
        self.valid = false;
        self.owner = None;
    }

    pub fn set_valid(&mut self, program_id: String)
        ensures
            final(self).valid,
            final(self).id == old(self).id,
            final(self).owner == Some(program_id),
    {
        self.valid = true;
        self.owner = Some(program_id);
    }
}

/// Number of free frames among the first `n` entries of `s`.
pub open spec fn count_free_upto(s: Seq<Frame>, n: int) -> nat
    decreases n,
{
    if n <= 0 {
        0
    } else {
        count_free_upto(s, n - 1) + (if s[n - 1].valid { 0nat } else { 1nat })
    }
}

/// Counting free frames over a longer prefix never gives fewer.
pub proof fn lemma_count_free_mono(s: Seq<Frame>, i: int, j: int)
    requires
        0 <= i <= j,
    ensures
        count_free_upto(s, i) <= count_free_upto(s, j),
    decreases j,
{
    if i < j {
        lemma_count_free_mono(s, i, j - 1);
    }
}

/// Updating one entry changes the free count by the difference the entry
/// itself contributes.
pub proof fn lemma_count_free_update(s: Seq<Frame>, i: int, f: Frame, n: int)
    requires
        0 <= i < s.len(),
        n <= s.len(),
    ensures
        count_free_upto(s.update(i, f), n) == count_free_upto(s, n)
            - (if i < n && !s[i].valid { 1nat } else { 0nat })
            + (if i < n && !f.valid { 1nat } else { 0nat }),
    decreases n,
{
    if n > 0 {
        lemma_count_free_update(s, i, f, n - 1);
        assert(s.update(i, f)[n - 1] == (if i == n - 1 { f } else { s[n - 1] }));
    }
}

/// The frame table owns all frame state; allocation hands out the
/// lowest-indexed free frames, all or nothing.
pub struct FrameTable {
    pub frames: Vec<Frame>,
}

/// A successful allocation: `ids` are the `num` lowest-indexed frames free in
/// `pre`, in ascending order; in `post` they are bound to `owner` and every
/// other frame is untouched.
pub open spec fn alloc_ok(
    pre: FrameTable,
    post: FrameTable,
    ids: Seq<usize>,
    num: int,
    owner: Seq<char>,
) -> bool {
    &&& ids.len() == num
    &&& forall|k: int| 0 <= k < num ==> pre.is_free(#[trigger] ids[k] as int)
    &&& forall|k1: int, k2: int| 0 <= k1 < k2 < num ==> ids[k1] < ids[k2]
    &&& forall|j: int|
        #[trigger] pre.is_free(j) && !ids.contains(j as usize) ==> forall|k: int|
            0 <= k < num ==> #[trigger] ids[k] < j
    &&& post.frames@.len() == pre.frames@.len()
    &&& forall|j: int|
        0 <= j < pre.frames@.len() && !ids.contains(j as usize)
            ==> #[trigger] post.frames@[j] == pre.frames@[j]
    &&& forall|k: int|
        0 <= k < num ==> {
            let fr = #[trigger] post.frames@[ids[k] as int];
            fr.valid && fr.id == ids[k] && fr.owner is Some && fr.owner.unwrap()@ == owner
        }
    &&& post.free_count() == pre.free_count() - num
}

impl FrameTable {
    /// Well-formedness: a full-size table whose entries carry their own index
    /// and whose `valid` flag agrees with having an owner.
    pub open spec fn wf(self) -> bool {
        &&& self.frames@.len() == NUM_FRAMES
        &&& forall|i: int|
            0 <= i < self.frames@.len() ==> (#[trigger] self.frames@[i]).id == i
        &&& forall|i: int|
            0 <= i < self.frames@.len()
                ==> ((#[trigger] self.frames@[i]).valid <==> self.frames@[i].owner is Some)
    }

    /// Frame `i` exists and is free.
    pub open spec fn is_free(self, i: int) -> bool {
        0 <= i < self.frames@.len() && !self.frames@[i].valid
    }

    /// How many frames are free.
    pub open spec fn free_count(self) -> nat {
        count_free_upto(self.frames@, self.frames@.len() as int)
    }

    pub fn new() -> (t: FrameTable)
        ensures
            t.wf(),
            forall|i: int| 0 <= i < NUM_FRAMES ==> t.is_free(i),
            t.free_count() == NUM_FRAMES,
    {
        let mut vec: Vec<Frame> = Vec::new();
        let mut i: usize = 0;
        while i < NUM_FRAMES
            invariant
                i <= NUM_FRAMES,
                vec@.len() == i,
                forall|j: int|
                    0 <= j < i ==> {
                        let fr = #[trigger] vec@[j];
                        !fr.valid && fr.id == j && fr.owner is None
                    },
                count_free_upto(vec@, i as int) == i,
            decreases NUM_FRAMES - i,
        {
            proof {
                lemma_count_free_push(vec@, Frame { valid: false, id: i, owner: None });
            }
            vec.push(Frame::new(i));
            i += 1;
        }
        FrameTable { frames: vec }
    }

    /// The lowest-indexed free frame, if any frame is free.
    pub fn find_free_frame(&self) -> (r: Option<usize>)
        ensures
            match r {
                Some(i) => self.is_free(i as int) && forall|j: int|
                    0 <= j < i ==> !self.is_free(j),
                None => forall|j: int| !self.is_free(j),
            },
    {
        let mut i: usize = 0;
        let n = self.frames.len();
        while i < n
            invariant
                i <= n,
                n == self.frames@.len(),
                forall|j: int| 0 <= j < i ==> !self.is_free(j),
            decreases n - i,
        {
            if !self.frames[i].valid {
                return Some(i);
            }
            i += 1;
        }
        None
    }

    /// Allocate `num_frames` frames for the program named `filename`:
    /// deterministically the lowest-indexed free frames, marked in use and
    /// bound to the program, or `OutOfMemory` with nothing changed when too
    /// few are free.
    pub fn alloc_frames(&mut self, num_frames: usize, filename: String) -> (r: Result<
        Vec<usize>,
        KernelError,
    >)
        requires
            old(self).wf(),
        ensures
            final(self).wf(),
            match r {
                Ok(ids) => old(self).free_count() >= num_frames && alloc_ok(
                    *old(self),
                    *final(self),
                    ids@,
                    num_frames as int,
                    filename@,
                ),
                Err(e) => {
                    &&& e == KernelError::OutOfMemory
                    &&& *final(self) == *old(self)
                    &&& old(self).free_count() < num_frames
                },
            },
    {
        let n = self.frames.len();
        let mut free_ids: Vec<usize> = Vec::new();
        let mut i: usize = 0;
        while i < n && free_ids.len() < num_frames
            invariant
                *self == *old(self),
                n == self.frames@.len(),
                i <= n,
                free_ids@.len() <= num_frames,
                free_ids@.len() == count_free_upto(self.frames@, i as int),
                forall|k: int|
                    0 <= k < free_ids@.len() ==> #[trigger] free_ids@[k] < i
                        && old(self).is_free(free_ids@[k] as int),
                forall|k1: int, k2: int|
                    0 <= k1 < k2 < free_ids@.len() ==> free_ids@[k1] < free_ids@[k2],
                forall|j: int|
                    0 <= j < i && old(self).is_free(j) ==> free_ids@.contains(j as usize),
            decreases n - i,
        {
            let ghost pre = free_ids@;
            if !self.frames[i].valid {
                free_ids.push(i);
            }
            proof {
                assert forall|j: int|
                    0 <= j < i + 1 && old(self).is_free(j) implies free_ids@.contains(
                    j as usize,
                ) by {
                    if j < i {
                        let m = choose|m: int| 0 <= m < pre.len() && pre[m] == j as usize;
                        assert(free_ids@[m] == j as usize);
                    } else {
                        assert(free_ids@[pre.len() as int] == i);
                    }
                }
            }
            i += 1;
        }
        if free_ids.len() < num_frames {
            proof {
                lemma_count_free_mono(self.frames@, i as int, n as int);
            }
            return Err(KernelError::OutOfMemory);
        }
        proof {
            lemma_count_free_mono(self.frames@, i as int, n as int);
        }
        let ghost i_end: int = i as int;
        let mut k: usize = 0;
        while k < free_ids.len()
            invariant
                old(self).wf(),
                free_ids@.len() == num_frames,
                n == self.frames@.len(),
                n == old(self).frames@.len(),
                k <= free_ids@.len(),
                forall|m: int|
                    0 <= m < free_ids@.len() ==> #[trigger] free_ids@[m] < i_end <= n
                        && old(self).is_free(free_ids@[m] as int),
                forall|m1: int, m2: int|
                    0 <= m1 < m2 < free_ids@.len() ==> free_ids@[m1] < free_ids@[m2],
                forall|j: int|
                    0 <= j < i_end && old(self).is_free(j) ==> free_ids@.contains(j as usize),
                forall|j: int|
                    0 <= j < n && (forall|m: int|
                        0 <= m < k ==> free_ids@[m] != j as usize)
                        ==> #[trigger] self.frames@[j] == old(self).frames@[j],
                forall|m: int|
                    0 <= m < k ==> {
                        let fr = #[trigger] self.frames@[free_ids@[m] as int];
                        fr.valid && fr.id == free_ids@[m] && fr.owner is Some
                            && fr.owner.unwrap()@ == filename@
                    },
                count_free_upto(self.frames@, n as int) == count_free_upto(
                    old(self).frames@,
                    n as int,
                ) - k,
            decreases free_ids.len() - k,
        {
            let id = free_ids[k];
            let f = Frame { valid: true, id, owner: Some(filename.clone()) };
            assert(self.frames@[id as int] == old(self).frames@[id as int]);
            proof {
                lemma_count_free_update(self.frames@, id as int, f, n as int);
            }
            self.frames.set(id, f);
            k += 1;
        }
        assert forall|j: int|
            #[trigger] old(self).is_free(j) && !free_ids@.contains(j as usize) implies forall|
            m: int,
        | 0 <= m < num_frames ==> #[trigger] free_ids@[m] < j by {
            assert(j >= i_end);
        }
        assert forall|j: int|
            0 <= j < old(self).frames@.len() && !free_ids@.contains(j as usize)
            implies #[trigger] self.frames@[j] == old(self).frames@[j] by {
            assert(forall|m: int| 0 <= m < free_ids@.len() ==> free_ids@[m] != j as usize);
        }
        Ok(free_ids)
    }

    /// Free the given frames: each is marked free and its owner cleared.
    /// Freeing a frame that is not in use (or naming one twice) is refused as
    /// `DoubleFree`, a frame id outside the table as `OutOfBounds`; nothing is
    /// changed on failure.
    pub fn free_frames(&mut self, ids: &Vec<usize>) -> (r: Result<(), KernelError>)
        requires
            old(self).wf(),
        ensures
            final(self).wf(),
            match r {
                Ok(_) => free_ok(*old(self), *final(self), ids@),
                Err(e) => {
                    &&& *final(self) == *old(self)
                    &&& !freeable(*old(self), ids@)
                    &&& (e matches KernelError::OutOfBounds(_) || e matches KernelError::DoubleFree(
                        _,
                    ))
                },
            },
            freeable(*old(self), ids@) ==> r is Ok,
    {
        let n = self.frames.len();
        let mut k: usize = 0;
        while k < ids.len()
            invariant
                old(self).wf(),
                *self == *old(self),
                n == self.frames@.len(),
                k <= ids@.len(),
                forall|m: int|
                    0 <= m < k ==> (#[trigger] ids@[m]) < n && self.frames@[ids@[m] as int].valid,
                forall|m1: int, m2: int| 0 <= m1 < m2 < k ==> ids@[m1] != ids@[m2],
            decreases ids@.len() - k,
        {
            let id = ids[k];
            if id >= n {
                return Err(KernelError::OutOfBounds(id));
            }
            if !self.frames[id].valid {
                return Err(KernelError::DoubleFree(id));
            }
            let mut m: usize = 0;
            while m < k
                invariant
                    old(self).wf(),
                    *self == *old(self),
                    n == self.frames@.len(),
                    m <= k < ids@.len(),
                    id == ids@[k as int],
                    forall|m2: int| 0 <= m2 < m ==> ids@[m2] != id,
            decreases k - m,
            {
                if ids[m] == id {
                    return Err(KernelError::DoubleFree(id));
                }
                m += 1;
            }
            k += 1;
        }
        let mut k2: usize = 0;
        while k2 < ids.len()
            invariant
                old(self).wf(),
                n == self.frames@.len(),
                n == old(self).frames@.len(),
                k2 <= ids@.len(),
                freeable(*old(self), ids@),
                forall|j: int|
                    0 <= j < n && (forall|m: int| 0 <= m < k2 ==> ids@[m] != j as usize)
                        ==> #[trigger] self.frames@[j] == old(self).frames@[j],
                forall|m: int|
                    0 <= m < k2 ==> #[trigger] self.frames@[ids@[m] as int] == (Frame {
                        valid: false,
                        id: ids@[m],
                        owner: None,
                    }),
                count_free_upto(self.frames@, n as int) == count_free_upto(
                    old(self).frames@,
                    n as int,
                ) + k2,
            decreases ids@.len() - k2,
        {
            let id = ids[k2];
            let f = Frame { valid: false, id, owner: None };
            assert(self.frames@[id as int] == old(self).frames@[id as int]);
            proof {
                lemma_count_free_update(self.frames@, id as int, f, n as int);
            }
            self.frames.set(id, f);
            k2 += 1;
        }
        assert forall|j: int|
            0 <= j < old(self).frames@.len() && !ids@.contains(j as usize)
            implies #[trigger] self.frames@[j] == old(self).frames@[j] by {
            assert(forall|m: int| 0 <= m < ids@.len() ==> ids@[m] != j as usize);
        }
        Ok(())
    }

    /// A diagnostic snapshot of the frames in use: each valid frame's id with
    /// the name of its owner, in ascending id order.
    pub fn frame_dump(&self) -> (r: Vec<(usize, String)>)
        requires
            self.wf(),
        ensures
            r@.map_values(|p: (usize, String)| (p.0, p.1@)) == frame_dump_upto(
                self.frames@,
                self.frames@.len() as int,
            ),
    {
        let mut out: Vec<(usize, String)> = Vec::new();
        let mut i: usize = 0;
        let n = self.frames.len();
        while i < n
            invariant
                self.wf(),
                n == self.frames@.len(),
                i <= n,
                out@.map_values(|p: (usize, String)| (p.0, p.1@)) == frame_dump_upto(
                    self.frames@,
                    i as int,
                ),
            decreases n - i,
        {
            let ghost pre = out@;
            if self.frames[i].valid {
                match &self.frames[i].owner {
                    Some(owner) => {
                        out.push((i, owner.clone()));
                    },
                    None => {
                        proof {
                            assert(false);
                        }
                    },
                }
            }
            proof {
                assert(out@.map_values(|p: (usize, String)| (p.0, p.1@)) =~= frame_dump_upto(
                    self.frames@,
                    i as int + 1,
                ));
            }
            i += 1;
        }
        out
    }
}

/// The frames a `free_frames` call accepts: in range, in use, no id twice.
pub open spec fn freeable(t: FrameTable, ids: Seq<usize>) -> bool {
    &&& forall|k: int|
        0 <= k < ids.len() ==> (#[trigger] ids[k]) < t.frames@.len() && t.frames@[ids[k] as int].valid
    &&& forall|k1: int, k2: int| 0 <= k1 < k2 < ids.len() ==> ids[k1] != ids[k2]
}

/// A successful free: the named frames are free and ownerless afterwards,
/// every other frame is untouched, and the free count grew by their number.
pub open spec fn free_ok(pre: FrameTable, post: FrameTable, ids: Seq<usize>) -> bool {
    &&& freeable(pre, ids)
    &&& post.frames@.len() == pre.frames@.len()
    &&& forall|j: int|
        0 <= j < pre.frames@.len() && !ids.contains(j as usize) ==> #[trigger] post.frames@[j]
            == pre.frames@[j]
    &&& forall|k: int|
        0 <= k < ids.len() ==> #[trigger] post.frames@[ids[k] as int] == (Frame {
            valid: false,
            id: ids[k],
            owner: None,
        })
    &&& post.free_count() == pre.free_count() + ids.len()
}

/// The valid frames among the first `n`, as (id, owner) pairs.
pub open spec fn frame_dump_upto(s: Seq<Frame>, n: int) -> Seq<(usize, Seq<char>)>
    decreases n,
{
    if n <= 0 {
        Seq::empty()
    } else {
        frame_dump_upto(s, n - 1) + (if s[n - 1].valid {
            seq![(((n - 1) as usize), s[n - 1].owner.unwrap()@)]
        } else {
            Seq::empty()
        })
    }
}

/// With a free count of zero, every frame is in use.
pub proof fn lemma_count_free_zero(s: Seq<Frame>, n: int, j: int)
    requires
        count_free_upto(s, n) == 0,
        0 <= j < n,
    ensures
        s[j].valid,
    decreases n,
{
    if j < n - 1 {
        lemma_count_free_zero(s, n - 1, j);
    }
}

/// Law: allocating on a table with exactly as many free frames as requested
/// succeeds with that many distinct, ascending frame ids and leaves no frame
/// free. (That a request for more frames than are free fails with
/// `OutOfMemory` and changes nothing is part of `alloc_frames`' contract.)
pub proof fn lemma_alloc_exact_fit(
    pre: FrameTable,
    post: FrameTable,
    ids: Seq<usize>,
    num: int,
    owner: Seq<char>,
)
    requires
        pre.wf(),
        alloc_ok(pre, post, ids, num, owner),
        pre.free_count() == num,
    ensures
        ids.len() == num,
        forall|k1: int, k2: int| 0 <= k1 < k2 < num ==> ids[k1] < ids[k2],
        post.free_count() == 0,
        forall|j: int| 0 <= j < post.frames@.len() ==> (#[trigger] post.frames@[j]).valid,
{
    assert forall|j: int| 0 <= j < post.frames@.len() implies (#[trigger] post.frames@[j]).valid by {
        lemma_count_free_zero(post.frames@, post.frames@.len() as int, j);
    }
}

/// Frame-relative address translation: the physical line slot of logical
/// offset `offset` within frame `frame_idx`.
pub open spec fn translate(frame_idx: int, offset: int) -> int {
    frame_idx * (FRAME_SIZE as int) + offset % (FRAME_SIZE as int)
}

/// One line slot of program memory.
pub struct ProgEntry {
    pub line: String,
}

impl ProgEntry {
    pub fn new() -> (e: ProgEntry)
        ensures
            e.line@ == Seq::<char>::empty(),
    {
        ProgEntry { line: String::new() }
    }

    pub fn reset(&mut self)
        ensures
            final(self).line@ == Seq::<char>::empty(),
    {
        self.line = String::new();
    }
}

/// Flat line store of fixed capacity, addressed by raw index or through
/// frame translation.
pub struct ProgMemory {
    pub size: usize,
    pub prog_mem: Vec<ProgEntry>,
}

impl View for ProgMemory {
    type V = Seq<Seq<char>>;

    open spec fn view(&self) -> Seq<Seq<char>> {
        self.prog_mem@.map_values(|e: ProgEntry| e.line@)
    }
}

/// The nonempty lines among the first `n`, as (address, line) pairs.
pub open spec fn mem_dump_upto(lines: Seq<Seq<char>>, n: int) -> Seq<(usize, Seq<char>)>
    decreases n,
{
    if n <= 0 {
        Seq::empty()
    } else {
        mem_dump_upto(lines, n - 1) + (if lines[n - 1].len() > 0 {
            seq![(((n - 1) as usize), lines[n - 1])]
        } else {
            Seq::empty()
        })
    }
}

impl ProgMemory {
    pub open spec fn wf(self) -> bool {
        self.prog_mem@.len() == self.size
    }

    pub fn new(size: usize) -> (m: ProgMemory)
        ensures
            m.wf(),
            m.size == size,
            m@.len() == size,
            forall|i: int| 0 <= i < size ==> #[trigger] m@[i] == Seq::<char>::empty(),
    {
        let mut vec: Vec<ProgEntry> = Vec::new();
        let mut i: usize = 0;
        while i < size
            invariant
                i <= size,
                vec@.len() == i,
                forall|j: int| 0 <= j < i ==> #[trigger] vec@[j].line@ == Seq::<char>::empty(),
            decreases size - i,
        {
            vec.push(ProgEntry::new());
            i += 1;
        }
        let m = ProgMemory { size, prog_mem: vec };
        proof {
            assert(forall|i: int|
                0 <= i < size ==> #[trigger] m@[i] == vec@[i].line@);
        }
        m
    }

    /// Bounds-checked raw read of one line slot.
    pub fn read(&self, idx: usize) -> (r: Result<String, KernelError>)
        requires
            self.wf(),
        ensures
            match r {
                Ok(s) => idx < self.size && s@ == self@[idx as int],
                Err(e) => idx >= self.size && e == KernelError::OutOfBounds(idx),
            },
    {
        if idx < self.size {
            Ok(self.prog_mem[idx].line.clone())
        } else {
            Err(KernelError::OutOfBounds(idx))
        }
    }

    /// Bounds-checked raw write of one line slot.
    pub fn write(&mut self, idx: usize, val: String) -> (r: Result<(), KernelError>)
        requires
            old(self).wf(),
        ensures
            final(self).wf(),
            final(self).size == old(self).size,
            match r {
                Ok(_) => idx < old(self).size && final(self)@ == old(self)@.update(
                    idx as int,
                    val@,
                ),
                Err(e) => {
                    &&& idx >= old(self).size
                    &&& e == KernelError::OutOfBounds(idx)
                    &&& *final(self) == *old(self)
                },
            },
    {
        if idx < self.size {
            let ghost pre = self@;
            self.prog_mem.set(idx, ProgEntry { line: val });
            proof {
                assert(self@ =~= pre.update(idx as int, self.prog_mem@[idx as int].line@));
            }
            Ok(())
        } else {
            Err(KernelError::OutOfBounds(idx))
        }
    }

    /// Write through frame translation: the slot at
    /// `translate(frame_idx, offset)`.
    pub fn write_to_frame(&mut self, frame_idx: usize, offset: usize, val: String) -> (r: Result<
        (),
        KernelError,
    >)
        requires
            old(self).wf(),
            frame_idx * (FRAME_SIZE as int) + (FRAME_SIZE as int) <= usize::MAX,
        ensures
            final(self).wf(),
            final(self).size == old(self).size,
            match r {
                Ok(_) => {
                    &&& translate(frame_idx as int, offset as int) < old(self).size
                    &&& final(self)@ == old(self)@.update(
                        translate(frame_idx as int, offset as int),
                        val@,
                    )
                },
                Err(e) => {
                    &&& translate(frame_idx as int, offset as int) >= old(self).size
                    &&& e == KernelError::OutOfBounds(
                        translate(frame_idx as int, offset as int) as usize,
                    )
                    &&& *final(self) == *old(self)
                },
            },
    {
        let addr = frame_idx * FRAME_SIZE + offset % FRAME_SIZE;
        self.write(addr, val)
    }

    /// Read through frame translation: the slot at
    /// `translate(frame_idx, offset)`.
    pub fn read_from_frame(&self, frame_idx: usize, offset: usize) -> (r: Result<
        String,
        KernelError,
    >)
        requires
            self.wf(),
            frame_idx * (FRAME_SIZE as int) + (FRAME_SIZE as int) <= usize::MAX,
        ensures
            match r {
                Ok(s) => translate(frame_idx as int, offset as int) < self.size && s@ == self@[
                    translate(frame_idx as int, offset as int)
                ],
                Err(e) => {
                    &&& translate(frame_idx as int, offset as int) >= self.size
                    &&& e == KernelError::OutOfBounds(
                        translate(frame_idx as int, offset as int) as usize,
                    )
                },
            },
    {
        let addr = frame_idx * FRAME_SIZE + offset % FRAME_SIZE;
        self.read(addr)
    }

    /// A diagnostic snapshot of the occupied line slots, in address order.
    pub fn dump(&self) -> (r: Vec<(usize, String)>)
        requires
            self.wf(),
        ensures
            r@.map_values(|p: (usize, String)| (p.0, p.1@)) == mem_dump_upto(
                self@,
                self.size as int,
            ),
    {
        let mut out: Vec<(usize, String)> = Vec::new();
        let mut i: usize = 0;
        while i < self.size
            invariant
                self.wf(),
                i <= self.size,
                out@.map_values(|p: (usize, String)| (p.0, p.1@)) == mem_dump_upto(
                    self@,
                    i as int,
                ),
            decreases self.size - i,
        {
            let line = &self.prog_mem[i].line;
            if !line.as_str().is_empty() {
                out.push((i, line.clone()));
            }
            proof {
                assert(out@.map_values(|p: (usize, String)| (p.0, p.1@)) =~= mem_dump_upto(
                    self@,
                    i as int + 1,
                ));
            }
            i += 1;
        }
        out
    }
}

/// One variable slot: a key/value pair, or empty.
pub struct VarEntry {
    pub key: Option<String>,
    pub val: Option<String>,
}

impl VarEntry {
    pub fn new() -> (e: VarEntry)
        ensures
            e.key is None,
            e.val is None,
    {
        VarEntry { key: None, val: None }
    }
}

/// Whether entry `e` holds the variable named `key`.
pub open spec fn entry_matches(e: VarEntry, key: Seq<char>) -> bool {
    e.key is Some && e.key.unwrap()@ == key
}

/// The value of the first entry from index `i` on that holds `key`.
pub open spec fn lookup_from(s: Seq<VarEntry>, i: int, key: Seq<char>) -> Option<Seq<char>>
    decreases s.len() - i,
{
    if i < 0 || i >= s.len() {
        None
    } else if entry_matches(s[i], key) {
        Some(s[i].val.unwrap()@)
    } else {
        lookup_from(s, i + 1, key)
    }
}

/// The value stored for `key`: the first matching entry wins.
pub open spec fn lookup(s: Seq<VarEntry>, key: Seq<char>) -> Option<Seq<char>> {
    lookup_from(s, 0, key)
}

/// The index of the first empty entry from `i` on, or the length.
pub open spec fn first_free_from(s: Seq<VarEntry>, i: int) -> int
    decreases s.len() - i,
{
    if i < 0 || i >= s.len() {
        s.len() as int
    } else if s[i].key is None {
        i
    } else {
        first_free_from(s, i + 1)
    }
}

/// The index of the first empty entry, or the length if none is empty.
pub open spec fn first_free(s: Seq<VarEntry>) -> int {
    first_free_from(s, 0)
}

/// Flat key-value variable store of fixed capacity.
pub struct VarMemory {
    pub size: usize,
    pub var_mem: Vec<VarEntry>,
}

impl VarMemory {
    /// Well-formedness: full-size, and a slot has a key exactly when it has
    /// a value.
    pub open spec fn wf(self) -> bool {
        &&& self.var_mem@.len() == self.size
        &&& forall|i: int|
            0 <= i < self.var_mem@.len()
                ==> ((#[trigger] self.var_mem@[i]).key is Some <==> self.var_mem@[i].val is Some)
    }

    pub fn new(size: usize) -> (m: VarMemory)
        ensures
            m.wf(),
            m.size == size,
            forall|key: Seq<char>| lookup(m.var_mem@, key) is None,
    {
        let mut vec: Vec<VarEntry> = Vec::new();
        let mut i: usize = 0;
        while i < size
            invariant
                i <= size,
                vec@.len() == i,
                forall|j: int| 0 <= j < i ==> (#[trigger] vec@[j]).key is None
                    && vec@[j].val is None,
            decreases size - i,
        {
            vec.push(VarEntry::new());
            i += 1;
        }
        let m = VarMemory { size, var_mem: vec };
        proof {
            assert forall|key: Seq<char>| lookup(m.var_mem@, key) is None by {
                lemma_lookup_no_match(m.var_mem@, 0, key);
            }
        }
        m
    }

    /// The value of `key`, if some entry holds it.
    pub fn get(&self, key: &str) -> (r: Option<String>)
        requires
            self.wf(),
        ensures
            match r {
                Some(v) => lookup(self.var_mem@, key@) == Some(v@),
                None => lookup(self.var_mem@, key@) is None,
            },
    {
        let n = self.var_mem.len();
        let mut i: usize = 0;
        while i < n
            invariant
                self.wf(),
                n == self.var_mem@.len(),
                i <= n,
                lookup(self.var_mem@, key@) == lookup_from(self.var_mem@, i as int, key@),
            decreases n - i,
        {
            let ent = &self.var_mem[i];
            match &ent.key {
                Some(k) => {
                    if crate::text::str_eq(k.as_str(), key) {
                        match &ent.val {
                            Some(v) => {
                                return Some(v.clone());
                            },
                            None => {
                                proof {
                                    assert(false);
                                }
                            },
                        }
                    }
                },
                None => {},
            }
            i += 1;
        }
        None
    }

    /// Store `key = val` in the first empty slot; with no slot free the
    /// store is left unchanged.
    pub fn set(&mut self, key: String, val: String)
        requires
            old(self).wf(),
        ensures
            final(self).wf(),
            final(self).size == old(self).size,
            ({
                let i = first_free(old(self).var_mem@);
                if i < old(self).var_mem@.len() {
                    final(self).var_mem@ == old(self).var_mem@.update(
                        i,
                        VarEntry { key: Some(key), val: Some(val) },
                    )
                } else {
                    *final(self) == *old(self)
                }
            }),
    {
        let n = self.var_mem.len();
        let mut i: usize = 0;
        while i < n
            invariant
                old(self).wf(),
                *self == *old(self),
                n == self.var_mem@.len(),
                i <= n,
                first_free(self.var_mem@) == first_free_from(self.var_mem@, i as int),
            decreases n - i,
        {
            if self.var_mem[i].key.is_none() {
                self.var_mem.set(i, VarEntry { key: Some(key), val: Some(val) });
                return ;
            }
            i += 1;
        }
    }
}

/// The view of one variable slot: its key and value as character
/// sequences.
pub open spec fn slot_view(e: VarEntry) -> (Option<Seq<char>>, Option<Seq<char>>) {
    (
        (match e.key {
            Some(k) => Some(k@),
            None => None,
        }),
        (match e.val {
            Some(v) => Some(v@),
            None => None,
        }),
    )
}

/// The view of the whole variable store.
pub open spec fn var_views(s: Seq<VarEntry>) -> Seq<(Option<Seq<char>>, Option<Seq<char>>)> {
    s.map_values(|e: VarEntry| slot_view(e))
}

/// Lookup over slot views: the value of the first slot from `i` on that
/// holds `key`.
pub open spec fn lookup_v_from(
    s: Seq<(Option<Seq<char>>, Option<Seq<char>>)>,
    i: int,
    key: Seq<char>,
) -> Option<Seq<char>>
    decreases s.len() - i,
{
    if i < 0 || i >= s.len() {
        None
    } else if s[i].0 == Some(key) {
        Some(s[i].1.unwrap())
    } else {
        lookup_v_from(s, i + 1, key)
    }
}

/// Lookup over slot views: the stored value of `key`, first match wins.
pub open spec fn lookup_v(
    s: Seq<(Option<Seq<char>>, Option<Seq<char>>)>,
    key: Seq<char>,
) -> Option<Seq<char>> {
    lookup_v_from(s, 0, key)
}

/// The index of the first empty slot view from `i` on, or the length.
pub open spec fn first_free_v_from(
    s: Seq<(Option<Seq<char>>, Option<Seq<char>>)>,
    i: int,
) -> int
    decreases s.len() - i,
{
    if i < 0 || i >= s.len() {
        s.len() as int
    } else if s[i].0 is None {
        i
    } else {
        first_free_v_from(s, i + 1)
    }
}

/// The index of the first empty slot view, or the length.
pub open spec fn first_free_v(s: Seq<(Option<Seq<char>>, Option<Seq<char>>)>) -> int {
    first_free_v_from(s, 0)
}

/// What storing `key = val` does to the slot views: the first empty slot
/// is filled; with none free nothing changes.
pub open spec fn set_v(
    s: Seq<(Option<Seq<char>>, Option<Seq<char>>)>,
    key: Seq<char>,
    val: Seq<char>,
) -> Seq<(Option<Seq<char>>, Option<Seq<char>>)> {
    let i = first_free_v(s);
    if i < s.len() {
        s.update(i, (Some(key), Some(val)))
    } else {
        s
    }
}

/// Entry-level lookup and slot-view lookup agree on a well-formed store.
pub proof fn lemma_lookup_views(s: Seq<VarEntry>, i: int, key: Seq<char>)
    requires
        forall|j: int| 0 <= j < s.len() ==> ((#[trigger] s[j]).key is Some <==> s[j].val is Some),
    ensures
        lookup_v_from(var_views(s), i, key) == lookup_from(s, i, key),
    decreases s.len() - i,
{
    if 0 <= i < s.len() {
        assert(var_views(s)[i] == slot_view(s[i]));
        lemma_lookup_views(s, i + 1, key);
    }
}

/// The first-free index lies between `i` and the length.
pub proof fn lemma_first_free_bounds(s: Seq<VarEntry>, i: int)
    requires
        0 <= i <= s.len(),
    ensures
        i <= first_free_from(s, i) <= s.len(),
    decreases s.len() - i,
{
    if i < s.len() && s[i].key is Some {
        lemma_first_free_bounds(s, i + 1);
    }
}

/// Entry-level and slot-view first-free agree.
pub proof fn lemma_first_free_views(s: Seq<VarEntry>, i: int)
    ensures
        first_free_v_from(var_views(s), i) == first_free_from(s, i),
    decreases s.len() - i,
{
    if 0 <= i < s.len() {
        assert(var_views(s)[i] == slot_view(s[i]));
        lemma_first_free_views(s, i + 1);
    }
}

/// Updating one entry updates its slot view pointwise.
pub proof fn lemma_var_views_update(s: Seq<VarEntry>, i: int, e: VarEntry)
    requires
        0 <= i < s.len(),
    ensures
        var_views(s.update(i, e)) == var_views(s).update(i, slot_view(e)),
{
    assert(var_views(s.update(i, e)) =~= var_views(s).update(i, slot_view(e)));
}

/// With no matching entry from `i` on, the lookup from `i` finds nothing.
proof fn lemma_lookup_no_match(s: Seq<VarEntry>, i: int, key: Seq<char>)
    requires
        forall|j: int| i <= j < s.len() ==> !entry_matches(#[trigger] s[j], key),
    ensures
        lookup_from(s, i, key) is None,
    decreases s.len() - i,
{
    if 0 <= i < s.len() {
        lemma_lookup_no_match(s, i + 1, key);
    }
}

/// Pushing an entry extends the prefix count by the entry's own contribution.
proof fn lemma_count_free_push(s: Seq<Frame>, f: Frame)
    ensures
        count_free_upto(s.push(f), s.len() as int + 1) == count_free_upto(s, s.len() as int)
            + (if f.valid { 0nat } else { 1nat }),
{
    assert(s.push(f)[s.len() as int] == f);
    lemma_count_free_prefix_eq(s, s.push(f), s.len() as int);
}

/// Two sequences that agree on a prefix have the same free count over it.
proof fn lemma_count_free_prefix_eq(s1: Seq<Frame>, s2: Seq<Frame>, n: int)
    requires
        forall|i: int| 0 <= i < n ==> s1[i] == s2[i],
        n <= s1.len(),
        n <= s2.len(),
    ensures
        count_free_upto(s1, n) == count_free_upto(s2, n),
    decreases n,
{
    if n > 0 {
        lemma_count_free_prefix_eq(s1, s2, n - 1);
    }
}

} // verus!
