use minsh::errors::KernelError;
use minsh::shellmemory::{ProgEntry, ProgMemory, VarMemory, FRAME_SIZE, MEM_SIZE, VAR_SIZE};

#[test]
fn prog_memory_starts_empty() {
    let m = ProgMemory::new(MEM_SIZE);
    for i in 0..MEM_SIZE {
        assert_eq!(m.read(i).unwrap(), "");
    }
}

#[test]
fn prog_memory_write_then_read() {
    let mut m = ProgMemory::new(MEM_SIZE);
    m.write(7, "hello".to_string()).unwrap();
    assert_eq!(m.read(7).unwrap(), "hello");
    assert_eq!(m.read(6).unwrap(), "");
}

#[test]
fn prog_memory_out_of_bounds_is_reported() {
    let mut m = ProgMemory::new(MEM_SIZE);
    assert_eq!(m.read(MEM_SIZE), Err(KernelError::OutOfBounds(MEM_SIZE)));
    assert_eq!(m.write(MEM_SIZE, "x".to_string()), Err(KernelError::OutOfBounds(MEM_SIZE)));
    assert_eq!(m.read(0).unwrap(), "", "a refused write changes nothing");
}

#[test]
fn frame_relative_write_translates() {
    let mut m = ProgMemory::new(MEM_SIZE);
    m.write_to_frame(2, 5, "x".to_string()).unwrap();
    assert_eq!(m.read(2 * FRAME_SIZE + 1).unwrap(), "x");
    assert_eq!(m.read_from_frame(2, 5).unwrap(), "x");
}

#[test]
fn frame_relative_out_of_bounds_is_reported() {
    let mut m = ProgMemory::new(8);
    let r = m.write_to_frame(3, 0, "x".to_string());
    assert_eq!(r, Err(KernelError::OutOfBounds(12)));
}

#[test]
fn memory_dump_lists_occupied_slots() {
    let mut m = ProgMemory::new(MEM_SIZE);
    m.write(3, "a".to_string()).unwrap();
    m.write(11, "b".to_string()).unwrap();
    let dump = m.dump();
    assert_eq!(dump, vec![(3, "a".to_string()), (11, "b".to_string())]);
}

#[test]
fn var_memory_set_then_get() {
    let mut v = VarMemory::new(VAR_SIZE);
    assert_eq!(v.get("x"), None);
    v.set("x".to_string(), "1".to_string());
    assert_eq!(v.get("x").as_deref(), Some("1"));
    assert_eq!(v.get("y"), None);
}

#[test]
fn var_memory_first_match_wins() {
    let mut v = VarMemory::new(VAR_SIZE);
    v.set("x".to_string(), "first".to_string());
    v.set("x".to_string(), "second".to_string());
    assert_eq!(v.get("x").as_deref(), Some("first"));
}

#[test]
fn var_memory_full_store_drops_silently() {
    let mut v = VarMemory::new(1);
    v.set("a".to_string(), "1".to_string());
    v.set("b".to_string(), "2".to_string());
    assert_eq!(v.get("a").as_deref(), Some("1"));
    assert_eq!(v.get("b"), None);
}

#[test]
fn prog_entry_reset_clears_the_line() {
    let mut e = ProgEntry::new();
    assert_eq!(e.line, "");
    e.line = "leftover".to_string();
    e.reset();
    assert_eq!(e.line, "");
}
