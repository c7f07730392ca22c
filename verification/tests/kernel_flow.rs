use minsh::errors::KernelError;
use minsh::job::{FileRead, Job, Program, ScriptFile};
use minsh::kernel::{Kernel, Mode};
use minsh::shellmemory::{FrameTable, ProgMemory, VarMemory, FRAME_SIZE, MEM_SIZE, VAR_SIZE};

fn fresh_kernel() -> Kernel {
    Kernel::new(
        Mode::FCFS,
        ProgMemory::new(MEM_SIZE),
        VarMemory::new(VAR_SIZE),
        FrameTable::new(),
    )
}

fn numbered_lines(n: usize) -> Vec<String> {
    (0..n).map(|i| format!("line {}", i)).collect()
}

fn load_round_trip(line_count: usize) {
    let mut kern = fresh_kernel();
    let lines = numbered_lines(line_count);
    let content = FileRead::Lines(lines.clone());
    let p = Program::new(&mut kern, "script.txt", &content).expect("load must succeed");
    assert_eq!(p.size, line_count);
    assert_eq!(p.filename, "script.txt");
    let expected_frames = (line_count + FRAME_SIZE - 1) / FRAME_SIZE;
    assert_eq!(p.page_table.len(), expected_frames);
    for pc in 0..line_count {
        let fidx = p.page_table[pc / FRAME_SIZE];
        let got = kern.prog_memory.read_from_frame(fidx, pc).unwrap();
        assert_eq!(got, lines[pc], "line {} must read back unchanged", pc);
    }
}

#[test]
fn round_trip_empty_script() {
    load_round_trip(0);
}

#[test]
fn round_trip_one_line() {
    load_round_trip(1);
}

#[test]
fn round_trip_one_less_than_a_frame() {
    load_round_trip(FRAME_SIZE - 1);
}

#[test]
fn round_trip_exactly_one_frame() {
    load_round_trip(FRAME_SIZE);
}

#[test]
fn round_trip_one_more_than_a_frame() {
    load_round_trip(FRAME_SIZE + 1);
}

#[test]
fn round_trip_full_memory() {
    load_round_trip(MEM_SIZE);
}

#[test]
fn empty_script_allocates_no_frames() {
    let mut kern = fresh_kernel();
    let content = FileRead::Lines(vec![]);
    let p = Program::new(&mut kern, "empty.txt", &content).unwrap();
    assert_eq!(p.size, 0);
    assert!(p.page_table.is_empty());
    assert_eq!(kern.frame_table.find_free_frame(), Some(0));
}

#[test]
fn ten_lines_need_three_frames() {
    let mut kern = fresh_kernel();
    let content = FileRead::Lines(numbered_lines(10));
    let p = Program::new(&mut kern, "ten.txt", &content).unwrap();
    assert_eq!(p.page_table.len(), 3, "ceil(10 / 4) frames");
}

#[test]
fn oversized_script_is_rejected_whole() {
    let mut kern = fresh_kernel();
    let content = FileRead::Lines(numbered_lines(MEM_SIZE + 1));
    let r = Program::new(&mut kern, "big.txt", &content);
    assert!(matches!(r, Err(KernelError::OutOfMemory)));
    assert_eq!(kern.frame_table.find_free_frame(), Some(0), "all-or-nothing");
}

#[test]
fn open_failure_is_reported() {
    let mut kern = fresh_kernel();
    let r = Program::new(&mut kern, "gone.txt", &FileRead::OpenFailed);
    assert!(matches!(r, Err(KernelError::OpenError)));
}

#[test]
fn read_failure_carries_the_line_index() {
    let mut kern = fresh_kernel();
    let r = Program::new(&mut kern, "torn.txt", &FileRead::ReadFailed(2));
    assert_eq!(r.err(), Some(KernelError::ReadError(2)));
}

#[test]
fn duplicate_admission_is_already_loaded() {
    let mut kern = fresh_kernel();
    let content = FileRead::Lines(numbered_lines(2));
    let p = Program::new(&mut kern, "dup.txt", &content).unwrap();
    let job = Job::new(Some(p.size), "dup.txt".to_string(), Some(p), &mut kern).unwrap();
    kern.queue_job(job);
    let again = Program::new(&mut kern, "dup.txt", &content);
    assert!(matches!(again, Err(KernelError::AlreadyLoaded)));
}

#[test]
fn sharing_path_without_a_live_job_is_no_such_job() {
    let mut kern = fresh_kernel();
    let r = Job::new(None, "ghost.txt".to_string(), None, &mut kern);
    assert!(matches!(r, Err(KernelError::NoSuchJob)));
}

#[test]
fn mismatched_admission_arguments_are_illegal_state() {
    let mut kern = fresh_kernel();
    let r = Job::new(Some(3), "odd.txt".to_string(), None, &mut kern);
    assert!(matches!(r, Err(KernelError::IllegalState)));
}

#[test]
fn pids_increase_and_are_never_reused() {
    let mut kern = fresh_kernel();
    let c1 = FileRead::Lines(numbered_lines(1));
    let p1 = Program::new(&mut kern, "a.txt", &c1).unwrap();
    let j1 = Job::new(Some(p1.size), "a.txt".to_string(), Some(p1), &mut kern).unwrap();
    kern.queue_job(j1.clone());
    let p2 = Program::new(&mut kern, "b.txt", &c1).unwrap();
    let j2 = Job::new(Some(p2.size), "b.txt".to_string(), Some(p2), &mut kern).unwrap();
    assert_eq!(j1.pid, 0);
    assert_eq!(j2.pid, 1);
    assert_eq!(kern.next_pid, 2);
}

#[test]
fn sharing_gives_two_jobs_one_image() {
    let mut kern = fresh_kernel();
    let content = FileRead::Lines(vec!["echo shared".to_string()]);
    let p = Program::new(&mut kern, "s.txt", &content).unwrap();
    let j1 = Job::new(Some(p.size), "s.txt".to_string(), Some(p), &mut kern).unwrap();
    let sid = j1.prog_id;
    kern.queue_job(j1);
    assert_eq!(kern.programs[sid].refcount, 1);
    let j2 = Job::new(None, "s.txt".to_string(), None, &mut kern).unwrap();
    assert_eq!(j2.prog_id, sid, "the second job shares the first image");
    assert_eq!(kern.programs[sid].refcount, 2);
    kern.queue_job(j2);
    let files: Vec<ScriptFile> = vec![];
    kern.execute_fcfs_schedule(&files).expect("two queued jobs must run");
    assert_eq!(kern.programs[sid].refcount, 0, "both holds released");
    assert_eq!(kern.frame_table.find_free_frame(), Some(0));
    for f in kern.frame_table.frames.iter() {
        assert!(!f.valid, "every frame is free after the last holder finished");
    }
}

#[test]
fn empty_queue_schedule_changes_nothing() {
    let mut kern = fresh_kernel();
    kern.var_memory.set("x".to_string(), "1".to_string());
    kern.prog_memory.write(5, "remnant".to_string()).unwrap();
    let files: Vec<ScriptFile> = vec![];
    let r = kern.execute_fcfs_schedule(&files);
    assert!(matches!(r, Err(KernelError::EmptyQueue)));
    for f in kern.frame_table.frames.iter() {
        assert!(!f.valid, "frame table untouched");
    }
    assert_eq!(kern.prog_memory.read(5).unwrap(), "remnant", "program memory untouched");
    assert_eq!(kern.var_memory.get("x").as_deref(), Some("1"));
}

#[test]
fn job_runs_every_line_across_frame_boundaries() {
    let mut kern = fresh_kernel();
    let lines: Vec<String> = (0..10).map(|i| format!("echo x{}", i)).collect();
    let content = FileRead::Lines(lines);
    let p = Program::new(&mut kern, "ten.txt", &content).unwrap();
    assert_eq!(p.page_table.len(), 3);
    let job = Job::new(Some(p.size), "ten.txt".to_string(), Some(p), &mut kern).unwrap();
    kern.queue_job(job);
    let files: Vec<ScriptFile> = vec![];
    let out = kern.execute_fcfs_schedule(&files).unwrap();
    let expected: Vec<String> = (0..10).map(|i| format!("x{}", i)).collect();
    assert_eq!(out, expected, "pc visits lines 0..9 in order");
}

#[test]
fn kernel_memory_dump_groups_lines_by_frame() {
    let mut kern = fresh_kernel();
    let content = FileRead::Lines(numbered_lines(5));
    let p = Program::new(&mut kern, "five.txt", &content).unwrap();
    assert_eq!(p.page_table, vec![0, 1]);
    let dump = kern.memory_dump();
    assert_eq!(dump.len(), 2);
    assert_eq!(dump[0].0, 0);
    assert_eq!(dump[0].1, vec!["line 0", "line 1", "line 2", "line 3"]);
    assert_eq!(dump[1].0, 1);
    assert_eq!(dump[1].1, vec!["line 4", "", "", ""]);
}

#[test]
fn kernel_getters_expose_the_memories() {
    let mut kern = fresh_kernel();
    kern.get_mut_varmem().set("k".to_string(), "v".to_string());
    kern.get_mut_pmem().write(0, "l".to_string()).unwrap();
    assert_eq!(kern.var_memory.get("k").as_deref(), Some("v"));
    assert_eq!(kern.prog_memory.read(0).unwrap(), "l");
    let ids = kern.get_mut_ft().alloc_frames(1, "t".to_string()).unwrap();
    assert_eq!(ids, vec![0]);
}
