use std::collections::HashSet;
use torrent_core::storage::{parse_checkpoint, plan_write, push_checkpoint_entry, StorageOp};

fn set(ids: &[usize]) -> HashSet<usize> {
    ids.iter().copied().collect()
}

/// A file and a checkpoint log held in memory, on which the steps of a
/// write are taken one by one.
struct Disk {
    file: Vec<u8>,
    log: Vec<u8>,
}

impl Disk {
    fn new(total_length: usize) -> Disk {
        Disk { file: vec![0u8; total_length], log: Vec::new() }
    }

    fn take(&mut self, op: &StorageOp) {
        match op {
            StorageOp::WriteData { offset, bytes } => {
                let at = *offset as usize;
                self.file[at..at + bytes.len()].copy_from_slice(bytes);
            }
            StorageOp::AppendCheckpoint { entries } => self.log.extend_from_slice(entries),
            StorageOp::SyncData => {}
            StorageOp::SyncCheckpoint => {}
        }
    }
}

#[test]
fn checkpoint_names_the_pieces_of_its_entries() {
    assert_eq!(parse_checkpoint(b""), set(&[]));
    assert_eq!(parse_checkpoint(b"0,"), set(&[0]));
    assert_eq!(parse_checkpoint(b"0,1,2,"), set(&[0, 1, 2]));
    assert_eq!(parse_checkpoint(b"7,3,7,"), set(&[3, 7]));
    assert_eq!(parse_checkpoint(b"12"), set(&[12]));
    assert_eq!(parse_checkpoint(b" 4 ,\t5\r\n6\n"), set(&[4, 5, 6]));
    assert_eq!(parse_checkpoint(b"1\n2\n3"), set(&[1, 2, 3]));
    assert_eq!(parse_checkpoint(b"007,+8"), set(&[7, 8]));
}

#[test]
fn malformed_entries_are_passed_over() {
    assert_eq!(parse_checkpoint(b"1,x,2,"), set(&[1, 2]));
    assert_eq!(parse_checkpoint(b",,,"), set(&[]));
    assert_eq!(parse_checkpoint(b"1 2,3"), set(&[3]));
    assert_eq!(parse_checkpoint(b"-1,4"), set(&[4]));
    assert_eq!(parse_checkpoint(b"1.5,5,0x10,+,++6"), set(&[5]));
    assert_eq!(parse_checkpoint(b"99999999999999999999999999,6"), set(&[6]));
    assert_eq!(parse_checkpoint(b"18446744073709551616,2"), set(&[2]));
    assert_eq!(parse_checkpoint(b" , ,9"), set(&[9]));
}

#[test]
fn entries_are_a_number_and_a_comma() {
    let mut out = Vec::new();
    push_checkpoint_entry(&mut out, 0);
    push_checkpoint_entry(&mut out, 41);
    push_checkpoint_entry(&mut out, 100000);
    assert_eq!(out, b"0,41,100000,".to_vec());
    assert_eq!(parse_checkpoint(&out), set(&[0, 41, 100000]));
}

#[test]
fn data_is_forced_out_before_the_checkpoint_is_touched() {
    let plan = plan_write(vec![(2, vec![1, 2, 3]), (0, vec![4, 5, 6])], 3);
    assert_eq!(
        plan,
        vec![
            StorageOp::WriteData { offset: 6, bytes: vec![1, 2, 3] },
            StorageOp::WriteData { offset: 0, bytes: vec![4, 5, 6] },
            StorageOp::SyncData,
            StorageOp::AppendCheckpoint { entries: b"2,0,".to_vec() },
            StorageOp::SyncCheckpoint,
        ]
    );
    assert_eq!(
        plan_write(vec![], 16384),
        vec![StorageOp::SyncData, StorageOp::AppendCheckpoint { entries: vec![] }, StorageOp::SyncCheckpoint]
    );
    assert_eq!(
        plan_write(vec![(3, vec![9])], 32768)[0],
        StorageOp::WriteData { offset: 98304, bytes: vec![9] }
    );
}

#[test]
fn crash_before_the_checkpoint_append_leaves_the_piece_to_be_downloaded_again() {
    let plan = plan_write(vec![(1, vec![7u8; 4])], 4);
    for taken in 0..=2 {
        let mut disk = Disk::new(8);
        disk.log.extend_from_slice(b"0,");
        for op in &plan[..taken] {
            disk.take(op);
        }
        let complete = parse_checkpoint(&disk.log);
        assert!(!complete.contains(&1));
        assert_eq!(complete, set(&[0]));
    }
    let mut disk = Disk::new(8);
    disk.log.extend_from_slice(b"0,");
    disk.take(&plan[0]);
    assert_eq!(disk.file, vec![0, 0, 0, 0, 7, 7, 7, 7]);
    assert!(!parse_checkpoint(&disk.log).contains(&1));
    for op in &plan[1..] {
        disk.take(op);
    }
    assert_eq!(parse_checkpoint(&disk.log), set(&[0, 1]));
}
