use hilevel::context::Context;
use hilevel::id_table::IdTable;
use hilevel::manager::ProcessManager;
use hilevel::process::{ProcessControlBlock, UserStack};

#[test]
fn new_key_test() {
    let object = "Hello".to_owned();

    // An empty table first id should be 0
    let mut table: IdTable<String> = IdTable::default();
    assert_eq!(table.new_key().unwrap(), 0);

    // A table with lowest id 0, next should be 1
    table.insert(0, object.clone());
    assert_eq!(table.new_key().unwrap(), 1);

    // A table with lowest id 5, next should be 6
    table.insert(5, object.clone());
    assert_eq!(table.new_key().unwrap(), 6);

    // A table that has been filled up, should loop back around and find first gap after 0
    table.insert(i32::MAX, object.clone());
    assert_eq!(table.new_key().unwrap(), 1);
}

#[test]
fn next_key_after_removals() {
    let mut table: IdTable<u8> = IdTable::new();
    for k in 0..4 {
        table.insert(k, 0);
    }
    assert_eq!(table.new_key(), Some(4));
    // Removing the greatest key lowers the next one.
    table.remove(3);
    assert_eq!(table.new_key(), Some(3));
    // Removing a key below the greatest leaves the rule at max + 1.
    table.remove(1);
    assert_eq!(table.new_key(), Some(3));
    // Removing an absent key does nothing.
    assert!(table.remove(42).is_none());
    assert_eq!(table.len(), 2);
}

#[test]
fn next_key_wraps_to_least_free() {
    let mut table: IdTable<u8> = IdTable::new();
    table.insert(i32::MAX, 0);
    assert_eq!(table.new_key(), Some(0));
    table.insert(0, 0);
    table.insert(1, 0);
    table.insert(3, 0);
    assert_eq!(table.new_key(), Some(2));
    let k = table.new_key().unwrap();
    assert!(k >= 0);
    assert!(!table.contains_key(k));
}

#[test]
fn table_get_and_duplicate() {
    let mut table: IdTable<usize> = IdTable::new();
    assert_eq!(table.insert(2, 7), None);
    assert_eq!(table.insert(2, 8), Some(7));
    assert_eq!(table.get(2), Some(&8));
    assert_eq!(table.get(3), None);
    let copy = table.duplicate();
    assert_eq!(copy.get(2), Some(&8));
    assert_eq!(copy.len(), 1);
}

fn pcb(pid: i32) -> ProcessControlBlock {
    let stack = UserStack::new(0x1000, vec![0u8; 16]).unwrap();
    ProcessControlBlock::new(pid, stack, Context::new(0, 0x1000), IdTable::new())
}

#[test]
fn table_new_pid_test() {
    // An empty table first id should be 0
    let mut table: IdTable<ProcessControlBlock> = IdTable::default();
    assert_eq!(table.new_key().unwrap(), 0);

    // A table with lowest id 0, next should be 1
    table.insert(0, pcb(0));
    assert_eq!(table.new_key().unwrap(), 1);

    // A table with lowest id 5, next should be 6
    table.insert(5, pcb(5));
    assert_eq!(table.new_key().unwrap(), 6);

    // A table that has been filled up, should loop back around and find first gap after 0
    table.insert(i32::MAX, pcb(i32::MAX));
    assert_eq!(table.new_key().unwrap(), 1);
}

#[test]
fn process_new_pid_test() {
    let mut pm = ProcessManager::new(0x100, UserStack::new(0x1000, vec![0u8; 16]).unwrap());
    let stack = UserStack::new(0x2000, vec![0u8; 16]).unwrap();
    assert_eq!(pm.create_process(0x8000, IdTable::new(), stack), Ok(0));
}
