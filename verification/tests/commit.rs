//! What a change asks of the device, and what it does when the device fails.

use hc32_firmware::littlefs::{BlockDevice, Error, FileSystem};
use std::cell::RefCell;
use std::rc::Rc;

const SIZE: u32 = 256;
const COUNT: u32 = 16;

#[derive(Clone, Debug, PartialEq)]
enum Op {
    Erase(u32),
    Program(u32, u32, usize),
    Sync,
}

#[derive(Clone, Copy, Debug, PartialEq)]
enum Failure {
    Dead,
    Power,
}

struct State {
    blocks: Vec<Vec<u8>>,
    ops: Vec<Op>,
    dead: Vec<bool>,
    reads_left: Option<usize>,
    syncs_left: Option<usize>,
}

/// Flash memory in RAM that records what is done to it. Clones share it.
#[derive(Clone)]
struct Recorder(Rc<RefCell<State>>);

impl Recorder {
    fn new() -> Recorder {
        Recorder(Rc::new(RefCell::new(State {
            blocks: vec![vec![0; SIZE as usize]; COUNT as usize],
            ops: Vec::new(),
            dead: vec![false; COUNT as usize],
            reads_left: None,
            syncs_left: None,
        })))
    }

    fn take_ops(&self) -> Vec<Op> {
        std::mem::take(&mut self.0.borrow_mut().ops)
    }

    fn limit_reads(&self, reads: Option<usize>) {
        self.0.borrow_mut().reads_left = reads;
    }

    fn limit_syncs(&self, syncs: Option<usize>) {
        self.0.borrow_mut().syncs_left = syncs;
    }

    fn kill_all_but(&self, alive: &[u32]) {
        let mut state = self.0.borrow_mut();
        for block in 0..COUNT {
            state.dead[block as usize] = !alive.contains(&block);
        }
    }
}

fn spend(budget: &mut Option<usize>) -> Result<(), Failure> {
    match budget {
        None => Ok(()),
        Some(0) => Err(Failure::Power),
        Some(left) => {
            *left -= 1;
            Ok(())
        }
    }
}

impl BlockDevice for Recorder {
    type Error = Failure;

    fn block_size(&self) -> u32 {
        SIZE
    }

    fn block_count(&self) -> u32 {
        COUNT
    }

    fn read(&mut self, block: u32, offset: u32, bytes: &mut [u8]) -> Result<(), Failure> {
        let mut state = self.0.borrow_mut();
        spend(&mut state.reads_left)?;
        let from = offset as usize;
        bytes.copy_from_slice(&state.blocks[block as usize][from..from + bytes.len()]);
        Ok(())
    }

    fn program(&mut self, block: u32, offset: u32, bytes: &[u8]) -> Result<(), Failure> {
        let mut state = self.0.borrow_mut();
        state.ops.push(Op::Program(block, offset, bytes.len()));
        if state.dead[block as usize] {
            return Err(Failure::Dead);
        }
        let from = offset as usize;
        state.blocks[block as usize][from..from + bytes.len()].copy_from_slice(bytes);
        Ok(())
    }

    fn erase(&mut self, block: u32) -> Result<(), Failure> {
        let mut state = self.0.borrow_mut();
        state.ops.push(Op::Erase(block));
        if state.dead[block as usize] {
            return Err(Failure::Dead);
        }
        state.blocks[block as usize].fill(0xff);
        Ok(())
    }

    fn sync(&mut self) -> Result<(), Failure> {
        let mut state = self.0.borrow_mut();
        spend(&mut state.syncs_left)?;
        state.ops.push(Op::Sync);
        Ok(())
    }

    fn permanent_block_failure(&self, error: &Failure) -> bool {
        *error == Failure::Dead
    }
}

fn formatted() -> (Recorder, FileSystem<Recorder>) {
    let device = Recorder::new();
    let fs = FileSystem::format(device.clone()).unwrap();
    (device, fs)
}

/// The run of blocks is erased once, written, made durable, committed, made durable.
fn check_commit(ops: &[Op], span: usize) {
    let erased: Vec<u32> = ops
        .iter()
        .filter_map(|op| match op {
            Op::Erase(block) => Some(*block),
            _ => None,
        })
        .collect();
    assert_eq!(erased.len(), span);
    for (i, block) in erased.iter().enumerate() {
        assert_eq!(*block, (erased[0] + i as u32) % COUNT);
    }
    let end = ops.len();
    assert_eq!(
        ops[end - 3..],
        [Op::Sync, Op::Program(erased[0], 60, 4), Op::Sync]
    );
    for op in &ops[..end - 3] {
        match op {
            Op::Erase(_) => {}
            Op::Program(block, offset, length) => {
                assert!(erased.contains(block));
                assert!(*block != erased[0] || *offset >= 64 || *offset as usize + length <= 60);
            }
            Op::Sync => panic!("only the complete snapshot is made durable"),
        }
    }
}

#[test]
fn all_else_is_durable_before_the_commit_word() {
    let (device, mut fs) = formatted();
    check_commit(&device.take_ops(), 1);
    fs.write("a", &[7; 300]).unwrap();
    check_commit(&device.take_ops(), 2);
    fs.rename("a", "b").unwrap();
    check_commit(&device.take_ops(), 2);
}

#[test]
fn a_failed_sync_blocks_changes_until_mounted_again() {
    for syncs in 0..2 {
        let (device, mut fs) = formatted();
        device.limit_syncs(Some(syncs));
        assert_eq!(fs.write("a", b"1").unwrap_err(), Error::Device(Failure::Power));
        assert!(fs.recovery_required());
        device.limit_syncs(None);
        assert_eq!(fs.write("a", b"1").unwrap_err(), Error::RecoveryRequired);
        let mut fs = FileSystem::mount(fs.into_device()).unwrap();
        assert!(!fs.recovery_required());
        assert_eq!(fs.info().file_count, syncs as u32);
        fs.write("a", b"1").unwrap();
    }
}

#[test]
fn a_failed_read_before_writing_blocks_nothing() {
    let (device, mut fs) = formatted();
    fs.write("a", b"1").unwrap();
    device.take_ops();
    device.limit_reads(Some(0));
    assert_eq!(fs.write("b", b"2").unwrap_err(), Error::Device(Failure::Power));
    assert!(!fs.recovery_required());
    assert!(device.take_ops().is_empty());
    device.limit_reads(None);
    fs.write("b", b"2").unwrap();
}

#[test]
fn each_bad_block_is_tried_once() {
    let (device, mut fs) = formatted();
    let Op::Erase(active) = device.take_ops()[0] else {
        panic!("the first block is erased first");
    };
    device.kill_all_but(&[active]);
    assert_eq!(fs.write("a", b"1").unwrap_err(), Error::NoSpace);
    let mut tried = device.take_ops();
    assert_eq!(tried.len(), 4);
    tried.dedup();
    assert_eq!(tried.len(), 4);
    assert!(!fs.recovery_required());
}

#[test]
fn changes_go_around_bad_blocks() {
    let (device, mut fs) = formatted();
    let Op::Erase(active) = device.take_ops()[0] else {
        panic!("the first block is erased first");
    };
    fs.write("a", b"1").unwrap();
    let first = device.take_ops();
    let Op::Erase(next) = first[0] else {
        panic!("the first block is erased first");
    };
    device.kill_all_but(&[next, (next + 3) % COUNT, active]);
    fs.clear().unwrap();
    assert_eq!(fs.info().file_count, 0);
    let mut again = FileSystem::mount(fs.into_device()).unwrap();
    again.verify().unwrap();
}

#[test]
fn formatting_goes_around_bad_blocks() {
    let device = Recorder::new();
    device.kill_all_but(&[3]);
    let fs = FileSystem::format(device.clone()).unwrap();
    assert_eq!(fs.info().file_count, 0);
    let ops = device.take_ops();
    assert_eq!(ops[..4], [Op::Erase(0), Op::Erase(1), Op::Erase(2), Op::Erase(3)]);
    let none = Recorder::new();
    none.kill_all_but(&[]);
    assert!(matches!(FileSystem::format(none.clone()), Err(Error::NoSpace)));
    assert_eq!(none.take_ops().len(), 4);
}

#[test]
fn a_listing_ends_where_the_device_fails() {
    let (device, mut fs) = formatted();
    for name in ["a", "b", "c"] {
        fs.write(name, b"1").unwrap();
    }
    let mut all = Vec::new();
    fs.list(&mut all).unwrap();
    assert_eq!(all.len(), 3);
    let mut lengths = Vec::new();
    for reads in 0..20 {
        device.limit_reads(Some(reads));
        let mut found = Vec::new();
        let outcome = fs.list(&mut found);
        assert_eq!(outcome.is_ok(), found.len() == 3);
        for (a, b) in found.iter().zip(&all) {
            assert_eq!(a.0, b.0);
        }
        lengths.push(found.len());
    }
    for length in 0..4 {
        assert!(lengths.contains(&length));
    }
    device.limit_reads(None);
    let mut root = vec![all.remove(0)];
    fs.read_dir("", &mut root).unwrap();
    assert_eq!(root.len(), 4);
    assert!(fs.read_dir("none", &mut root).is_err());
    assert_eq!(root.len(), 4);
}
