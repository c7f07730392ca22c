use minsh::errors::KernelError;
use minsh::job::find_mem_idx;
use minsh::shellmemory::{FrameTable, FRAME_SIZE, MEM_SIZE, NUM_FRAMES};

#[test]
fn constants_shape() {
    assert_eq!(FRAME_SIZE, 4);
    assert_eq!(MEM_SIZE, 80);
    assert_eq!(NUM_FRAMES, 20);
}

#[test]
fn alloc_exact_fit_leaves_zero_free() {
    let mut ft = FrameTable::new();
    let ids = ft.alloc_frames(NUM_FRAMES, "prog".to_string()).expect("exact fit must succeed");
    assert_eq!(ids.len(), NUM_FRAMES);
    for (k, id) in ids.iter().enumerate() {
        assert_eq!(*id, k, "lowest-first allocation is ascending from zero");
    }
    assert!(ft.find_free_frame().is_none(), "no frame may be left free");
}

#[test]
fn alloc_overcommit_fails_and_allocates_nothing() {
    let mut ft = FrameTable::new();
    let r = ft.alloc_frames(NUM_FRAMES + 1, "prog".to_string());
    assert_eq!(r, Err(KernelError::OutOfMemory));
    assert_eq!(ft.find_free_frame(), Some(0));
    for f in ft.frames.iter() {
        assert!(!f.valid, "failed allocation must leave every frame free");
        assert!(f.owner.is_none());
    }
}

#[test]
fn alloc_picks_lowest_free_frames() {
    let mut ft = FrameTable::new();
    let first = ft.alloc_frames(3, "a".to_string()).unwrap();
    assert_eq!(first, vec![0, 1, 2]);
    ft.free_frames(&vec![1]).unwrap();
    let second = ft.alloc_frames(2, "b".to_string()).unwrap();
    assert_eq!(second, vec![1, 3], "the lowest free frames are taken first");
    assert_eq!(ft.frames[1].owner.as_deref(), Some("b"));
    assert_eq!(ft.frames[2].owner.as_deref(), Some("a"));
}

#[test]
fn free_frames_clears_owner() {
    let mut ft = FrameTable::new();
    let ids = ft.alloc_frames(2, "a".to_string()).unwrap();
    ft.free_frames(&ids).unwrap();
    assert!(!ft.frames[0].valid);
    assert!(ft.frames[0].owner.is_none());
    assert_eq!(ft.find_free_frame(), Some(0));
}

#[test]
fn double_free_is_refused() {
    let mut ft = FrameTable::new();
    let ids = ft.alloc_frames(1, "a".to_string()).unwrap();
    ft.free_frames(&ids).unwrap();
    assert_eq!(ft.free_frames(&ids), Err(KernelError::DoubleFree(0)));
}

#[test]
fn duplicate_id_in_one_free_call_is_a_double_free() {
    let mut ft = FrameTable::new();
    ft.alloc_frames(4, "a".to_string()).unwrap();
    let r = ft.free_frames(&vec![3, 3]);
    assert_eq!(r, Err(KernelError::DoubleFree(3)));
    assert!(ft.frames[3].valid, "a refused free changes nothing");
}

#[test]
fn free_out_of_range_is_refused() {
    let mut ft = FrameTable::new();
    assert_eq!(ft.free_frames(&vec![NUM_FRAMES]), Err(KernelError::OutOfBounds(NUM_FRAMES)));
}

#[test]
fn frame_dump_lists_only_valid_frames() {
    let mut ft = FrameTable::new();
    ft.alloc_frames(2, "owner".to_string()).unwrap();
    let dump = ft.frame_dump();
    assert_eq!(dump.len(), 2);
    assert_eq!(dump[0], (0, "owner".to_string()));
    assert_eq!(dump[1], (1, "owner".to_string()));
}

#[test]
fn translation_crosses_frame_boundaries() {
    assert_eq!(find_mem_idx(0, 0), 0);
    assert_eq!(find_mem_idx(0, 3), 3);
    assert_eq!(find_mem_idx(2, 5), 2 * FRAME_SIZE + 1);
    assert_eq!(find_mem_idx(19, 79), 19 * FRAME_SIZE + 3);
}
