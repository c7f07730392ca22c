use minsh::interpreter::{exec, filename_args, interpreter};
use minsh::job::{FileRead, ScriptFile};
use minsh::kernel::{Kernel, Mode};
use minsh::shellmemory::{FrameTable, ProgMemory, VarMemory, MEM_SIZE, VAR_SIZE};

fn boot() -> Kernel {
    Kernel::new(
        Mode::FCFS,
        ProgMemory::new(MEM_SIZE),
        VarMemory::new(VAR_SIZE),
        FrameTable::new(),
    )
}

fn script(name: &str, lines: &[&str]) -> ScriptFile {
    ScriptFile {
        filename: name.to_string(),
        content: FileRead::Lines(lines.iter().map(|l| l.to_string()).collect()),
    }
}

fn unopenable(name: &str) -> ScriptFile {
    ScriptFile { filename: name.to_string(), content: FileRead::OpenFailed }
}

fn run(kern: &mut Kernel, stmts: &[&str], files: &Vec<ScriptFile>) -> Vec<String> {
    interpreter(stmts.iter().map(|s| s.to_string()).collect(), kern, files)
}

#[test]
fn echo_literal_and_variable() {
    let mut kern = boot();
    let files = vec![];
    let out = run(&mut kern, &["set greeting hello", "echo greeting", "echo plain"], &files);
    assert_eq!(out, vec!["hello", "plain"]);
}

#[test]
fn unknown_command_is_reported_and_skipped() {
    let mut kern = boot();
    let files = vec![];
    let out = run(&mut kern, &["frobnicate", "echo still"], &files);
    assert_eq!(out, vec!["minsh: unrecognized command: frobnicate", "still"]);
}

#[test]
fn empty_statement_stops_the_list() {
    let mut kern = boot();
    let files = vec![];
    let out = run(&mut kern, &["   ", "echo never"], &files);
    assert_eq!(out, Vec::<String>::new());
}

#[test]
fn setmod_relabels_the_scheduler() {
    let mut kern = boot();
    let files = vec![];
    let out = run(&mut kern, &["setmod RR"], &files);
    assert_eq!(out, vec!["Scheduler running in RR"]);
    assert_eq!(kern.mode, Mode::RR);
    let out2 = run(&mut kern, &["setmod bogus"], &files);
    assert_eq!(out2, vec!["minsh: err: unknown scheduler mode: bogus"]);
    assert_eq!(kern.mode, Mode::RR);
}

#[test]
fn cat_prints_file_lines() {
    let mut kern = boot();
    let files = vec![script("notes.txt", &["alpha", "beta"])];
    let out = run(&mut kern, &["cat notes.txt"], &files);
    assert_eq!(out, vec!["alpha", "beta"]);
    let out2 = run(&mut kern, &["cat missing.txt"], &files);
    assert_eq!(out2, vec!["minsh: err: failed to open missing.txt"]);
}

#[test]
fn exec_runs_a_script_to_completion() {
    let mut kern = boot();
    let files = vec![script("hello.txt", &["echo one", "echo two;echo three"])];
    let out = run(&mut kern, &["exec hello.txt"], &files);
    assert_eq!(out, vec!["one", "two", "three"]);
    assert_eq!(kern.frame_table.find_free_frame(), Some(0), "frames reclaimed");
}

#[test]
fn exec_shares_one_image_between_duplicate_filenames() {
    let mut kern = boot();
    let files = vec![script("twice.txt", &["echo tick"])];
    let fnames = vec!["twice.txt".to_string(), "twice.txt".to_string()];
    let out = exec(&fnames, &mut kern, &files);
    assert_eq!(out, vec!["tick", "tick"], "both jobs run the shared image");
    for f in kern.frame_table.frames.iter() {
        assert!(!f.valid, "shared image freed exactly once, at the end");
    }
    assert_eq!(kern.next_pid, 2, "each admission got its own pid");
}

#[test]
fn one_bad_filename_does_not_stop_the_others() {
    let mut kern = boot();
    let files = vec![unopenable("broken.txt"), script("good.txt", &["echo fine"])];
    let fnames = vec!["broken.txt".to_string(), "good.txt".to_string()];
    let out = exec(&fnames, &mut kern, &files);
    assert_eq!(out, vec!["minsh: err: failed to open broken.txt", "fine"]);
    assert_eq!(kern.frame_table.find_free_frame(), Some(0));
}

#[test]
fn exec_with_nothing_admitted_reports_empty_queue() {
    let mut kern = boot();
    let files = vec![];
    let out = exec(&vec!["ghost.txt".to_string()], &mut kern, &files);
    assert_eq!(
        out,
        vec!["minsh: err: failed to open ghost.txt", "minsh: err: No job to execute"],
    );
}

#[test]
fn exec_inside_a_running_job_aborts_that_job_only() {
    let mut kern = boot();
    let files = vec![
        script("rogue.txt", &["echo before", "exec other.txt", "echo after"]),
        script("tame.txt", &["echo tame"]),
    ];
    let fnames = vec!["rogue.txt".to_string(), "tame.txt".to_string()];
    let out = exec(&fnames, &mut kern, &files);
    assert_eq!(
        out,
        vec![
            "before",
            "minsh: err: exec is not available while a job is running",
            "tame",
        ],
        "the failing job is cut short, the queued one still runs",
    );
    for f in kern.frame_table.frames.iter() {
        assert!(!f.valid, "aborted jobs still release their frames");
    }
}

#[test]
fn oversized_admission_is_reported_per_filename() {
    let mut kern = boot();
    let lines: Vec<String> = (0..(MEM_SIZE + 1)).map(|i| format!("echo {}", i)).collect();
    let files = vec![
        ScriptFile { filename: "huge.txt".to_string(), content: FileRead::Lines(lines) },
        script("small.txt", &["echo ok"]),
    ];
    let fnames = vec!["huge.txt".to_string(), "small.txt".to_string()];
    let out = exec(&fnames, &mut kern, &files);
    assert_eq!(out, vec!["minsh: err: out of memory admitting huge.txt", "ok"]);
}

#[test]
fn variables_set_by_one_job_survive_for_the_next() {
    let mut kern = boot();
    let files = vec![
        script("writer.txt", &["set shared 41"]),
        script("reader.txt", &["echo shared"]),
    ];
    let out = exec(
        &vec!["writer.txt".to_string(), "reader.txt".to_string()],
        &mut kern,
        &files,
    );
    assert_eq!(out, vec!["41"]);
}

#[test]
fn filename_args_lists_exec_and_cat_arguments() {
    assert_eq!(filename_args("exec a.txt b.txt"), vec!["a.txt", "b.txt"]);
    assert_eq!(filename_args("  cat one.txt "), vec!["one.txt"]);
    assert_eq!(filename_args("echo a.txt"), Vec::<String>::new());
    assert_eq!(filename_args("exec"), Vec::<String>::new());
    assert_eq!(filename_args(""), Vec::<String>::new());
}

#[test]
fn commands_without_exec_leave_the_kernel_core_untouched() {
    let mut kern = boot();
    let files = vec![script("notes.txt", &["alpha"])];
    let out = run(
        &mut kern,
        &["set a 1", "echo a", "cat notes.txt", "frobnicate"],
        &files,
    );
    assert_eq!(
        out,
        vec!["1", "alpha", "minsh: unrecognized command: frobnicate"],
    );
    assert_eq!(kern.next_pid, 0, "no pid issued without an admission");
    assert!(kern.programs.is_empty(), "no image registered");
    assert_eq!(kern.frame_table.find_free_frame(), Some(0), "no frame taken");
}
