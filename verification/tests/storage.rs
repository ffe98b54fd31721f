//! The partition on the flash, and the log files on it.

use hc32_firmware::efm::EfmError;
use hc32_firmware::filesystem::{
    self, Finding, FlashError, InternalFlash, Partition, Readback, Startup, BLOCK_COUNT,
    BLOCK_SIZE, CHUNK, PARTITION_END, PARTITION_START,
};
use hc32_firmware::littlefs::{BlockDevice, Error, FileSystem};
use hc32_firmware::log::{self, Level, Settings};
use hc32_firmware::logfile::{
    enforce_budget, flush_now, flush_once, free_oldest, write_segment, write_segment_retry, Flush,
    FlushState, Trouble,
};
use hc32_firmware::logring::LogRing;
use std::cell::{Cell, RefCell};
use std::rc::Rc;

/// Flash memory in RAM that can be made to fail. Clones share it.
#[derive(Clone)]
struct Memory {
    blocks: Rc<RefCell<Vec<Vec<u8>>>>,
    broken: Rc<Cell<bool>>,
}

#[derive(Debug, PartialEq)]
struct Broken;

impl Memory {
    fn new(count: usize, size: usize) -> Memory {
        Memory {
            blocks: Rc::new(RefCell::new(vec![vec![0xff; size]; count])),
            broken: Rc::new(Cell::new(false)),
        }
    }

    fn check(&self) -> Result<(), Broken> {
        if self.broken.get() {
            Err(Broken)
        } else {
            Ok(())
        }
    }
}

impl BlockDevice for Memory {
    type Error = Broken;

    fn block_size(&self) -> u32 {
        self.blocks.borrow()[0].len() as u32
    }

    fn block_count(&self) -> u32 {
        self.blocks.borrow().len() as u32
    }

    fn read(&mut self, block: u32, offset: u32, bytes: &mut [u8]) -> Result<(), Broken> {
        self.check()?;
        let from = offset as usize;
        bytes.copy_from_slice(&self.blocks.borrow()[block as usize][from..from + bytes.len()]);
        Ok(())
    }

    fn program(&mut self, block: u32, offset: u32, bytes: &[u8]) -> Result<(), Broken> {
        self.check()?;
        let mut blocks = self.blocks.borrow_mut();
        for (i, byte) in bytes.iter().enumerate() {
            blocks[block as usize][offset as usize + i] &= *byte;
        }
        Ok(())
    }

    fn erase(&mut self, block: u32) -> Result<(), Broken> {
        self.check()?;
        for byte in self.blocks.borrow_mut()[block as usize].iter_mut() {
            *byte = 0xff;
        }
        Ok(())
    }

    fn sync(&mut self) -> Result<(), Broken> {
        self.check()
    }

    fn permanent_block_failure(&self, _error: &Broken) -> bool {
        false
    }
}

fn formatted(count: usize) -> (Memory, FileSystem<Memory>) {
    let memory = Memory::new(count, 512);
    let fs = FileSystem::format(memory.clone()).map_err(|_| ()).unwrap();
    (memory, fs)
}

fn names(fs: &mut FileSystem<Memory>) -> Vec<String> {
    let mut list = Vec::new();
    fs.read_dir("log", &mut list).map_err(|_| ()).unwrap();
    list.into_iter().map(|(name, _)| name).collect()
}

fn contents(fs: &mut FileSystem<Memory>, name: &str) -> String {
    let size = fs.stat(name).map_err(|_| ()).unwrap().size as usize;
    let mut bytes = vec![0u8; size];
    let n = fs.read(name, 0, &mut bytes).map_err(|_| ()).unwrap();
    assert_eq!(n, size);
    String::from_utf8(bytes).unwrap()
}

// ---------------------------------------------------------------------------
// The partition
// ---------------------------------------------------------------------------

#[test]
fn the_partition_has_one_user() {
    let mut partition = Partition::new();
    let flash = InternalFlash::take(&mut partition).unwrap();
    assert!(InternalFlash::take(&mut partition).is_none());
    flash.release(&mut partition);
    assert!(InternalFlash::take(&mut partition).is_some());
}

#[test]
fn accesses_stay_within_the_partition() {
    let mut partition = Partition::new();
    let flash = InternalFlash::take(&mut partition).unwrap();
    assert_eq!(flash.read_at(false, 0, 0, 1), Ok(PARTITION_START));
    assert_eq!(
        flash.read_at(false, BLOCK_COUNT - 1, BLOCK_SIZE - 1, 1),
        Ok(PARTITION_END - 1)
    );
    assert_eq!(flash.read_at(false, 0, BLOCK_SIZE, 1), Err(FlashError::OutOfBounds));
    assert_eq!(flash.read_at(false, BLOCK_COUNT, 0, 0), Err(FlashError::OutOfBounds));
    assert_eq!(flash.read_at(false, 0, 1, usize::MAX), Err(FlashError::OutOfBounds));
    assert_eq!(flash.read_at(true, 99, 0, 0), Err(FlashError::InterruptContext));
    assert_eq!(flash.erase_at(false, 2), Ok(PARTITION_START + 2 * BLOCK_SIZE));
    assert_eq!(flash.erase_at(false, 16), Err(FlashError::OutOfBounds));
    assert_eq!(flash.erase_at(true, 2), Err(FlashError::InterruptContext));
}

#[test]
fn only_erased_words_are_programmed() {
    let mut partition = Partition::new();
    let flash = InternalFlash::take(&mut partition).unwrap();
    let erased = [0xffff_ffff; 2];
    assert_eq!(flash.program_at(false, 1, 4, 8, &erased), Ok(PARTITION_START + 0x2004));
    assert_eq!(flash.program_at(false, 1, 2, 8, &erased), Err(FlashError::Unaligned));
    assert_eq!(flash.program_at(false, 1, 4, 6, &erased), Err(FlashError::Unaligned));
    assert_eq!(
        flash.program_at(false, 1, BLOCK_SIZE - 4, 8, &erased),
        Err(FlashError::OutOfBounds)
    );
    assert_eq!(
        flash.program_at(false, 1, 4, 8, &[0xffff_ffff, 0xffff_fffe]),
        Err(FlashError::NotErased)
    );
    assert_eq!(
        flash.program_at(true, 1, 4, 8, &erased),
        Err(FlashError::InterruptContext)
    );
}

#[test]
fn worn_blocks_are_told_from_other_failures() {
    let mut partition = Partition::new();
    let flash = InternalFlash::take(&mut partition).unwrap();
    let worn = [
        FlashError::VerifyFailed,
        FlashError::Controller(EfmError::ProgramEraseError),
        FlashError::Controller(EfmError::Mismatch),
    ];
    for error in worn {
        assert!(flash.permanent_block_failure(&error));
    }
    let others = [
        FlashError::OutOfBounds,
        FlashError::Unaligned,
        FlashError::InterruptContext,
        FlashError::NotErased,
        FlashError::Controller(EfmError::Timeout),
        FlashError::Controller(EfmError::ReadCollision),
    ];
    for error in others {
        assert!(!flash.permanent_block_failure(&error));
    }
}

#[test]
fn one_wrong_reading_is_forgiven() {
    let expected = vec![7u8; CHUNK + 1];
    let good = vec![7u8; CHUNK];
    let bad = vec![8u8; CHUNK];
    let (mut state, first) = Readback::new(expected.len());
    assert_eq!(
        first,
        Finding::Read {
            offset: 0,
            len: CHUNK
        }
    );
    assert_eq!(state.judge(&bad, Some(&expected)), first);
    let next = Finding::Read {
        offset: CHUNK,
        len: 1,
    };
    assert_eq!(state.judge(&good, Some(&expected)), next);
    assert_eq!(state.judge(&[8], Some(&expected)), next);
    assert_eq!(state.judge(&[8], Some(&expected)), Finding::Bad);
    assert_eq!(state.judge(&[7], Some(&expected)), Finding::Good);
    let (mut erased, _) = Readback::new(2);
    assert_eq!(erased.judge(&[0xff, 0xff], None), Finding::Good);
    assert_eq!(Readback::new(0).1, Finding::Good);
}

#[test]
fn starting_preserves_what_is_there() {
    let memory = Memory::new(8, 512);
    let mut slot = None;
    let missing = filesystem::start(&mut slot, Some(memory.clone()));
    assert!(matches!(missing, Err(Error::NotFormatted)));
    assert!(filesystem::tries_empty(&missing));
    let result = filesystem::start_empty(&mut slot, Some(memory.clone()));
    assert!(matches!(result, Ok(Startup::Formatted)));
    assert!(!filesystem::tries_empty(&result));
    let fs = filesystem::mounted(&mut slot).unwrap();
    fs.write("kept", b"data").map_err(|_| ()).unwrap();
    let mut again = None;
    let result = filesystem::start(&mut again, Some(memory.clone()));
    assert!(matches!(result, Ok(Startup::Mounted)));
    let fs = filesystem::mounted(&mut again).unwrap();
    assert_eq!(contents(fs, "kept"), "data");

    let strange = Memory::new(8, 512);
    strange.blocks.borrow_mut()[3][100] = 0;
    let mut none = None;
    let missing = filesystem::start(&mut none, Some(strange.clone()));
    assert!(matches!(missing, Err(Error::NotFormatted)));
    let result = filesystem::start_empty(&mut none, Some(strange.clone()));
    assert!(matches!(result, Err(Error::NotFormatted)));
    assert!(filesystem::mounted(&mut none).is_none());
    assert_eq!(strange.blocks.borrow()[3][100], 0);
    let busy = filesystem::start::<Memory>(&mut none, None);
    assert!(matches!(busy, Err(Error::DeviceBusy)));
    assert!(!filesystem::tries_empty(&busy));
    let busy = filesystem::start_empty::<Memory>(&mut none, None);
    assert!(matches!(busy, Err(Error::DeviceBusy)));
    strange.broken.set(true);
    let failed = filesystem::start_empty(&mut none, Some(strange));
    assert!(matches!(failed, Err(Error::Device(Broken))));
}

#[test]
fn erased_partitions_are_recognised() {
    let mut memory = Memory::new(4, 512);
    assert_eq!(filesystem::partition_is_erased(&mut memory), Ok(true));
    memory.blocks.borrow_mut()[3][511] = 0xfe;
    assert_eq!(filesystem::partition_is_erased(&mut memory), Ok(false));
    memory.broken.set(true);
    assert_eq!(filesystem::partition_is_erased(&mut memory), Err(Broken));
}

#[test]
fn the_partition_is_mounted_again() {
    let (memory, fs) = formatted(8);
    let mut slot = Some(fs);
    let busy = filesystem::remount(&mut slot, false, Some(memory.clone()));
    assert!(matches!(busy, Err(Error::DeviceBusy)));
    assert!(slot.is_some());
    assert!(filesystem::remount(&mut slot, true, Some(memory.clone())).is_ok());
    assert!(slot.is_some());
    let taken = filesystem::remount(&mut slot, true, None);
    assert!(matches!(taken, Err(Error::DeviceBusy)));
    assert!(slot.is_none());
    assert!(matches!(filesystem::mount::<Memory>(None), Err(Error::DeviceBusy)));
    assert!(matches!(filesystem::format::<Memory>(None), Err(Error::DeviceBusy)));
    assert!(filesystem::format(Some(memory)).is_ok());
}

// ---------------------------------------------------------------------------
// Log files
// ---------------------------------------------------------------------------

fn logged(ring: &mut LogRing<256>, texts: &[&str]) {
    let s = Settings::new(true, Level::Info, true);
    for text in texts {
        let mut out = Vec::new();
        let pieces = vec![text.as_bytes().to_vec()];
        log::log(&s, ring, Level::Info, None, &pieces, false, true, &mut out);
    }
}

#[test]
fn entries_are_saved_to_files() {
    let (_, fs) = formatted(16);
    let mut slot = Some(fs);
    let settings = Settings::new(true, Level::Info, true);
    let mut ring: LogRing<256> = LogRing::new();
    let mut state = FlushState::new();
    let idle = flush_once(&settings, &mut slot, &mut ring, &mut state, 200, 4);
    assert!(matches!(idle, Flush::Idle));
    logged(&mut ring, &["one", "two"]);
    let saved = flush_once(&settings, &mut slot, &mut ring, &mut state, 200, 4);
    assert!(matches!(saved, Flush::Saved));
    let fs = filesystem::mounted(&mut slot).unwrap();
    let files = names(fs);
    assert_eq!(files.len(), 1);
    let path = format!("log/{}", files[0]);
    let text = contents(fs, &path);
    assert!(text.ends_with("[INF] one\n[INF] two\n"));
    logged(&mut ring, &["three"]);
    flush_now(&settings, &mut slot, &mut ring, &mut state, 200, 4);
    let fs = filesystem::mounted(&mut slot).unwrap();
    assert_eq!(contents(fs, &path), format!("{}[INF] three\n", text));
}

#[test]
fn files_keep_to_their_limit() {
    let (_, fs) = formatted(32);
    let mut slot = Some(fs);
    let settings = Settings::new(true, Level::Info, true);
    let mut ring: LogRing<256> = LogRing::new();
    let mut state = FlushState::new();
    for round in 0..12 {
        let text = format!("entry number {:02}", round);
        logged(&mut ring, &[&text]);
        flush_once(&settings, &mut slot, &mut ring, &mut state, 80, 3);
    }
    let fs = filesystem::mounted(&mut slot).unwrap();
    let files = names(fs);
    assert!(files.len() <= 3, "{:?}", files);
    let mut all = String::new();
    for name in &files {
        let text = contents(fs, &format!("log/{}", name));
        assert!(text.len() <= 80, "{}", text);
        all.push_str(&text);
    }
    assert!(all.contains("entry number 11"));
    assert!(!all.contains("entry number 00"));
}

#[test]
fn nothing_is_saved_while_saving_is_off() {
    let (_, fs) = formatted(16);
    let mut slot = Some(fs);
    let settings = Settings::new(true, Level::Info, false);
    let mut ring: LogRing<256> = LogRing::new();
    let mut state = FlushState::new();
    logged(&mut ring, &["one"]);
    let before = log::pending_bytes(&ring);
    let result = flush_once(&settings, &mut slot, &mut ring, &mut state, 200, 4);
    assert!(matches!(result, Flush::Idle));
    assert_eq!(log::pending_bytes(&ring), before);
    let on = Settings::new(true, Level::Info, true);
    let mut none: Option<FileSystem<Memory>> = None;
    flush_once(&on, &mut none, &mut ring, &mut state, 200, 4);
    assert_eq!(log::pending_bytes(&ring), before);
}

#[test]
fn failing_devices_are_reported() {
    let (memory, fs) = formatted(16);
    let mut slot = Some(fs);
    let settings = Settings::new(true, Level::Info, true);
    let mut ring: LogRing<256> = LogRing::new();
    let mut state = FlushState::new();
    logged(&mut ring, &["one"]);
    memory.broken.set(true);
    let result = flush_once(&settings, &mut slot, &mut ring, &mut state, 200, 4);
    assert!(matches!(result, Flush::Failed(Trouble::NoRoom)));
    assert_eq!(Trouble::NoRoom.message(), "logfile: 无法释放日志文件");
    assert_eq!(Trouble::Device.message(), "logfile: 日志落盘失败: Flash 设备错误");
}

#[test]
fn the_oldest_files_give_way() {
    let (_, mut fs) = formatted(32);
    for segment in 0..4 {
        write_segment(&mut fs, 7, segment, b"text\n").map_err(|_| ()).unwrap();
    }
    assert_eq!(names(&mut fs).len(), 4);
    free_oldest(&mut fs).map_err(|_| ()).unwrap();
    let left = names(&mut fs);
    assert_eq!(left.len(), 3);
    enforce_budget(&mut fs, 7, 4, 2).map_err(|_| ()).unwrap();
    assert!(names(&mut fs).len() <= 2);
    write_segment_retry(&mut fs, 7, 4, b"more\n").unwrap();
    assert!(names(&mut fs).len() <= 3);
}

#[test]
fn files_of_an_older_kind_go_first() {
    let (_, mut fs) = formatted(32);
    fs.mkdir("log").map_err(|_| ()).unwrap();
    fs.write("log/log3.log", b"x").map_err(|_| ()).unwrap();
    write_segment(&mut fs, 1, 0, b"text\n").map_err(|_| ()).unwrap();
    free_oldest(&mut fs).map_err(|_| ()).unwrap();
    let left = names(&mut fs);
    assert_eq!(left.len(), 1);
    assert!(left[0] != "log3.log");
}
