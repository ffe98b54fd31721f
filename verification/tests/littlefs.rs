//! The file system on a model of NOR flash.

use hc32_firmware::littlefs::format::{
    crc32_mpeg2, decode_wear_table, encode_wear_table, generation_is_newer, RecordHeader,
    SnapshotHeader, COMMIT_OFFSET, HEADER_SIZE, MAX_WEAR_TABLE_SIZE, RECORD_FLAG_DIRECTORY,
    RECORD_HEADER_SIZE,
};
use hc32_firmware::littlefs::{BlockDevice, EntryKind, Error, FileSystem, Geometry, MAX_FILES};
use std::cell::RefCell;
use std::rc::Rc;

#[derive(Clone, Copy, Debug, PartialEq, Eq)]
enum RamError {
    OutOfBounds,
    Unaligned,
    NotErased,
    PowerLoss,

    DeadBlock,
}

#[derive(Clone)]
struct State {
    bytes: Vec<u8>,
    programmed_words: Vec<bool>,
    block_size: u32,
    block_count: u32,
    fault_budget: Option<u64>,
    events: u64,
    byte_order: [usize; 4],
    erase_counts: Vec<u32>,
    dead_blocks: Vec<bool>,
}

impl State {
    fn event(&mut self) -> Result<(), RamError> {
        self.events += 1;
        if let Some(remaining) = &mut self.fault_budget {
            if *remaining == 0 {
                return Err(RamError::PowerLoss);
            }
            *remaining -= 1;
        }
        Ok(())
    }

    fn range(&self, block: u32, offset: u32, length: usize) -> Result<usize, RamError> {
        if block >= self.block_count || offset > self.block_size {
            return Err(RamError::OutOfBounds);
        }
        let length = u32::try_from(length).map_err(|_| RamError::OutOfBounds)?;
        let end = offset.checked_add(length).ok_or(RamError::OutOfBounds)?;
        if end > self.block_size {
            return Err(RamError::OutOfBounds);
        }
        let absolute = block
            .checked_mul(self.block_size)
            .and_then(|base| base.checked_add(offset))
            .ok_or(RamError::OutOfBounds)?;
        Ok(absolute as usize)
    }
}

/// Flash memory in RAM. Words can be programmed once after they were erased; the power
/// can fail at any byte, which leaves the operation half done; and blocks can be dead.
/// Clones share the memory.
#[derive(Clone)]
struct RamNor {
    state: Rc<RefCell<State>>,
}

impl RamNor {
    fn new(block_size: u32, block_count: u32) -> Self {
        assert!(block_size >= 64 && block_size.is_multiple_of(4));
        assert!(block_count >= 2);
        let byte_count = (block_size * block_count) as usize;
        Self {
            state: Rc::new(RefCell::new(State {
                bytes: vec![0xff; byte_count],
                programmed_words: vec![false; byte_count / 4],
                block_size,
                block_count,
                fault_budget: None,
                events: 0,
                byte_order: [0, 1, 2, 3],
                erase_counts: vec![0; block_count as usize],
                dead_blocks: vec![false; block_count as usize],
            })),
        }
    }

    fn arm_dead_block(&self, block: u32) {
        self.state.borrow_mut().dead_blocks[block as usize] = true;
    }

    fn heal_dead_block(&self, block: u32) {
        self.state.borrow_mut().dead_blocks[block as usize] = false;
    }

    fn fork(&self) -> Self {
        let mut state = self.state.borrow().clone();
        state.fault_budget = None;
        state.events = 0;
        Self {
            state: Rc::new(RefCell::new(state)),
        }
    }

    fn arm_power_loss(&self, after_events: u64, byte_order: [usize; 4]) {
        let mut state = self.state.borrow_mut();
        state.fault_budget = Some(after_events);
        state.events = 0;
        state.byte_order = byte_order;
    }

    fn power_cycle(&self) {
        self.state.borrow_mut().fault_budget = None;
    }

    fn reset_events(&self) {
        self.state.borrow_mut().events = 0;
    }

    fn events(&self) -> u64 {
        self.state.borrow().events
    }

    fn erase_counts(&self) -> Vec<u32> {
        self.state.borrow().erase_counts.clone()
    }

    fn bytes(&self) -> Vec<u8> {
        self.state.borrow().bytes.clone()
    }

    fn overwrite_raw(&self, absolute: usize, bytes: &[u8]) {
        let mut state = self.state.borrow_mut();
        state.bytes[absolute..absolute + bytes.len()].copy_from_slice(bytes);
    }

    fn block_size_value(&self) -> u32 {
        self.state.borrow().block_size
    }

    fn geometry_values(&self) -> (u32, u32) {
        let state = self.state.borrow();
        (state.block_size, state.block_count)
    }
}

impl BlockDevice for RamNor {
    type Error = RamError;

    fn block_size(&self) -> u32 {
        self.geometry_values().0
    }

    fn block_count(&self) -> u32 {
        self.geometry_values().1
    }

    fn read(&mut self, block: u32, offset: u32, bytes: &mut [u8]) -> Result<(), Self::Error> {
        let state = self.state.borrow();
        let absolute = state.range(block, offset, bytes.len())?;
        bytes.copy_from_slice(&state.bytes[absolute..absolute + bytes.len()]);
        Ok(())
    }

    fn program(&mut self, block: u32, offset: u32, bytes: &[u8]) -> Result<(), Self::Error> {
        if !offset.is_multiple_of(4) || !bytes.len().is_multiple_of(4) {
            return Err(RamError::Unaligned);
        }

        let mut state = self.state.borrow_mut();
        if state.dead_blocks[block as usize] {
            return Err(RamError::DeadBlock);
        }
        let absolute = state.range(block, offset, bytes.len())?;
        for word in 0..bytes.len() / 4 {
            let word_index = absolute / 4 + word;
            if state.programmed_words[word_index]
                || state.bytes[word_index * 4..word_index * 4 + 4]
                    .iter()
                    .any(|byte| *byte != 0xff)
            {
                return Err(RamError::NotErased);
            }
        }

        for word in 0..bytes.len() / 4 {
            let word_index = absolute / 4 + word;
            state.programmed_words[word_index] = true;
            let target = &bytes[word * 4..word * 4 + 4];
            let order = state.byte_order;
            for byte_index in order {
                state.event()?;
                let address = word_index * 4 + byte_index;
                state.bytes[address] &= target[byte_index];
            }
        }
        Ok(())
    }

    fn erase(&mut self, block: u32) -> Result<(), Self::Error> {
        let mut state = self.state.borrow_mut();
        if state.dead_blocks[block as usize] {
            return Err(RamError::DeadBlock);
        }
        let block_size = state.block_size as usize;
        let absolute = state.range(block, 0, block_size)?;
        state.erase_counts[block as usize] += 1;

        let first_word = absolute / 4;
        let word_count = block_size / 4;
        state.programmed_words[first_word..first_word + word_count].fill(false);

        for index in 0..block_size {
            state.event()?;
            let permuted = (index * 73) % block_size;
            state.bytes[absolute + permuted] = 0xff;
        }
        Ok(())
    }

    fn sync(&mut self) -> Result<(), Self::Error> {
        self.state.borrow_mut().event()
    }

    fn permanent_block_failure(&self, error: &Self::Error) -> bool {
        matches!(error, RamError::DeadBlock)
    }
}

fn read_all(
    fs: &mut FileSystem<RamNor>,
    name: &str,
) -> Result<Vec<u8>, Error<RamError>> {
    let size = fs.stat(name)?.size as usize;
    let mut bytes = vec![0; size];
    let read = fs.read(name, 0, &mut bytes)?;
    assert_eq!(read, size);
    Ok(bytes)
}

// ---------------------------------------------------------------------------
// Files and directories
// ---------------------------------------------------------------------------

fn raw_snapshot(records: &[(&str, u16, &[u8])]) -> RamNor {
    let geometry = Geometry::new(512, 8);
    let mut payload = Vec::new();
    let mut table = [0u8; MAX_WEAR_TABLE_SIZE];
    let table_size = encode_wear_table(&[0; 64], geometry.block_count, &mut table).unwrap();
    payload.extend_from_slice(&table[..table_size]);
    for &(name, flags, data) in records {
        let header = RecordHeader::new(
            name.len() as u16,
            data.len() as u32,
            crc32_mpeg2(data),
            flags,
        )
        .unwrap();
        payload.extend_from_slice(&header.encode().unwrap());
        payload.extend_from_slice(name.as_bytes());
        payload.extend_from_slice(data);
        payload.resize(
            payload.len() + header.record_len as usize
                - RECORD_HEADER_SIZE
                - name.len()
                - data.len(),
            0,
        );
    }

    let header = SnapshotHeader::new(
        0,
        0,
        payload.len() as u32,
        crc32_mpeg2(&payload),
        records.len() as u32,
        geometry,
    )
    .unwrap();
    let device = RamNor::new(geometry.block_size, geometry.block_count);
    device.overwrite_raw(0, &header.encode_committed().unwrap());
    device.overwrite_raw(HEADER_SIZE, &payload);
    device
}

#[test]
fn basic_file_workflow_survives_remount() {
    let device = RamNor::new(256, 8);
    let mut fs = FileSystem::format(device).unwrap();
    assert_eq!(fs.info().file_count, 0);

    fs.write("config", b"alpha").unwrap();
    fs.write("log", b"0123456789").unwrap();
    assert_eq!(fs.stat("config").unwrap().size, 5);

    let mut partial = [0u8; 4];
    assert_eq!(fs.read("log", 3, &mut partial).unwrap(), 4);
    assert_eq!(&partial, b"3456");
    assert_eq!(fs.read("log", 99, &mut partial).unwrap(), 0);

    let mut names = Vec::new();
    let mut list = Vec::new();
    fs.list(&mut list).unwrap();
    for (name, info) in list {
        names.push((name.to_owned(), info.size));
    }
    assert_eq!(names, [("config".to_owned(), 5), ("log".to_owned(), 10)]);

    fs.write("config", b"beta-version").unwrap();
    fs.rename("log", "history").unwrap();
    fs.remove("config").unwrap();
    fs.verify().unwrap();

    let device = fs.into_device();
    let mut fs = FileSystem::mount(device).unwrap();
    assert_eq!(read_all(&mut fs, "history").unwrap(), b"0123456789");
    assert_eq!(fs.stat("config"), Err(Error::NotFound));
    assert_eq!(fs.info().file_count, 1);

    fs.clear().unwrap();
    assert_eq!(fs.info().file_count, 0);
    assert_eq!(
        FileSystem::mount(fs.into_device())
            .unwrap()
            .info()
            .file_count,
        0
    );
}

#[test]
fn names_and_namespace_errors_are_explicit() {
    let mut fs = FileSystem::format(RamNor::new(512, 8)).unwrap();
    for invalid in [
        "",
        "/absolute",
        "trailing/",
        "a//b",
        "a/./b",
        "a/../b",
        "\0",
        &"x".repeat(64),
    ] {
        assert_eq!(fs.write(invalid, b"x"), Err(Error::InvalidName));
    }
    assert_eq!(fs.write("missing/file", b"x"), Err(Error::NotFound));

    fs.write("source", b"value").unwrap();
    fs.write("target", b"other").unwrap();
    assert_eq!(fs.rename("missing", "new"), Err(Error::NotFound));
    assert_eq!(fs.rename("source", "target"), Err(Error::AlreadyExists));
    assert_eq!(fs.remove("missing"), Err(Error::NotFound));
    fs.rename("source", "source").unwrap();

    fs.write("配置", b"utf8-name").unwrap();
    assert_eq!(read_all(&mut fs, "配置").unwrap(), b"utf8-name");
}

#[test]
fn directory_workflow_is_typed_and_survives_remount() {
    let mut fs = FileSystem::format(RamNor::new(512, 8)).unwrap();
    assert_eq!(fs.stat("").unwrap().kind, EntryKind::Directory);

    fs.mkdir("etc").unwrap();
    fs.mkdir("etc/network").unwrap();
    fs.write("etc/config", b"mode=normal").unwrap();
    fs.write("root-file", b"root").unwrap();

    assert_eq!(fs.stat("etc").unwrap().kind, EntryKind::Directory);
    assert_eq!(fs.stat("etc/config").unwrap().kind, EntryKind::File);
    assert_eq!(fs.info().entry_count, 4);
    assert_eq!(fs.info().entry_count, fs.info().file_count);

    let mut root = Vec::new();
    let mut list = Vec::new();
    fs.read_dir("", &mut list).unwrap();
    for (name, info) in list {
        root.push((name.to_owned(), info.kind, info.size));
    }
    assert_eq!(
        root,
        [
            ("etc".to_owned(), EntryKind::Directory, 0),
            ("root-file".to_owned(), EntryKind::File, 4),
        ]
    );

    let mut etc = Vec::new();
    let mut list = Vec::new();
    fs.read_dir("etc", &mut list).unwrap();
    for (name, info) in list {
        etc.push((name.to_owned(), info.kind));
    }
    assert_eq!(
        etc,
        [
            ("network".to_owned(), EntryKind::Directory),
            ("config".to_owned(), EntryKind::File),
        ]
    );

    assert_eq!(fs.read("etc", 0, &mut [0; 1]), Err(Error::IsDirectory));
    assert_eq!(fs.max_write_size("etc"), Err(Error::IsDirectory));
    assert_eq!(fs.write("etc", b"file"), Err(Error::IsDirectory));
    assert_eq!(fs.remove("etc"), Err(Error::IsDirectory));
    assert_eq!(fs.rmdir("etc/config"), Err(Error::NotDirectory));
    assert_eq!(fs.rmdir("etc"), Err(Error::DirectoryNotEmpty));
    assert_eq!(fs.mkdir("etc"), Err(Error::AlreadyExists));

    fs.write("plain", b"file").unwrap();
    assert_eq!(fs.mkdir("plain/child"), Err(Error::NotDirectory));
    assert_eq!(fs.write("plain/child", b"x"), Err(Error::NotDirectory));

    let mut fs = FileSystem::mount(fs.into_device()).unwrap();
    fs.verify().unwrap();
    assert_eq!(read_all(&mut fs, "etc/config").unwrap(), b"mode=normal");
    fs.remove("etc/config").unwrap();
    fs.rmdir("etc/network").unwrap();
    fs.rmdir("etc").unwrap();
    assert_eq!(fs.stat("etc"), Err(Error::NotFound));
}

#[test]
fn directory_rename_moves_one_complete_subtree() {
    let mut fs = FileSystem::format(RamNor::new(512, 8)).unwrap();
    fs.mkdir("a").unwrap();
    fs.mkdir("a/sub").unwrap();
    fs.write("a/sub/file", b"payload").unwrap();
    fs.write("ab", b"prefix-neighbor").unwrap();

    fs.rename("a", "moved").unwrap();
    assert_eq!(fs.stat("a"), Err(Error::NotFound));
    assert_eq!(fs.stat("a/sub"), Err(Error::NotFound));
    assert_eq!(fs.stat("moved").unwrap().kind, EntryKind::Directory);
    assert_eq!(fs.stat("moved/sub").unwrap().kind, EntryKind::Directory);
    assert_eq!(read_all(&mut fs, "moved/sub/file").unwrap(), b"payload");
    assert_eq!(read_all(&mut fs, "ab").unwrap(), b"prefix-neighbor");

    assert_eq!(
        fs.rename("moved", "moved/sub/deeper"),
        Err(Error::InvalidMove)
    );
    fs.write("target", b"occupied").unwrap();
    assert_eq!(fs.rename("moved", "target"), Err(Error::AlreadyExists));

    let mut remounted = FileSystem::mount(fs.into_device()).unwrap();
    remounted.verify().unwrap();
    assert_eq!(
        read_all(&mut remounted, "moved/sub/file").unwrap(),
        b"payload"
    );
}

#[test]
fn directory_rename_preflights_every_descendant_length() {
    let mut fs = FileSystem::format(RamNor::new(512, 8)).unwrap();
    fs.mkdir("d").unwrap();
    let child = format!("d/{}", "x".repeat(60));
    assert_eq!(child.len(), 62);
    fs.write(&child, b"value").unwrap();

    assert_eq!(fs.rename("d", "long"), Err(Error::InvalidName));
    assert!(!fs.recovery_required());
    assert_eq!(read_all(&mut fs, &child).unwrap(), b"value");
    assert_eq!(fs.stat("long"), Err(Error::NotFound));
}

#[test]
fn mount_accepts_legacy_files_and_rejects_invalid_trees() {
    let legacy = raw_snapshot(&[("legacy", 0, b"old-format-root-file")]);
    let mut fs = FileSystem::mount(legacy).unwrap();
    assert_eq!(fs.stat("legacy").unwrap().kind, EntryKind::File);
    assert_eq!(
        read_all(&mut fs, "legacy").unwrap(),
        b"old-format-root-file"
    );

    let orphan = raw_snapshot(&[("missing/child", 0, b"orphan")]);
    assert!(matches!(
        FileSystem::mount(orphan),
        Err(Error::<RamError>::NotFormatted)
    ));

    let file_parent = raw_snapshot(&[("parent", 0, b"file"), ("parent/child", 0, b"child")]);
    assert!(matches!(
        FileSystem::mount(file_parent),
        Err(Error::<RamError>::NotFormatted)
    ));

    let nonempty_directory = raw_snapshot(&[("dir", RECORD_FLAG_DIRECTORY, b"not-empty")]);
    assert!(matches!(
        FileSystem::mount(nonempty_directory),
        Err(Error::<RamError>::NotFormatted)
    ));
}

#[test]
fn no_space_is_preflight_and_does_not_poison_mount() {
    let mut fs = FileSystem::format(RamNor::new(256, 8)).unwrap();
    let capacity = fs.info().capacity_bytes as usize;
    assert_eq!(
        fs.write("too-big", &vec![0x5a; capacity]),
        Err(Error::NoSpace)
    );
    assert!(!fs.recovery_required());

    fs.write("small", b"still writable").unwrap();
    assert_eq!(read_all(&mut fs, "small").unwrap(), b"still writable");
}

#[test]
fn max_write_size_accounts_for_records_and_namespace_limit() {
    let mut fs = FileSystem::format(RamNor::new(256, 8)).unwrap();
    let empty_capacity = fs.max_write_size("a").unwrap();
    fs.write("other", &[0x41; 100]).unwrap();
    assert!(fs.max_write_size("a").unwrap() < empty_capacity);
    assert!(fs.max_write_size("other").unwrap() > fs.max_write_size("a").unwrap());

    let replacement_capacity = fs.max_write_size("other").unwrap() as usize;
    fs.write("other", &vec![0x42; replacement_capacity])
        .unwrap();
    assert_eq!(
        fs.write("other", &vec![0x43; replacement_capacity + 1]),
        Err(Error::NoSpace)
    );

    let mut full = FileSystem::format(RamNor::new(512, 8)).unwrap();
    for index in 0..MAX_FILES {
        full.write(&format!("f{index:02}"), b"").unwrap();
    }
    assert_eq!(full.max_write_size("overflow"), Err(Error::NoSpace));
    assert!(full.max_write_size("f00").is_ok());
}

#[test]
fn file_count_is_bounded_without_allocation() {
    let mut fs = FileSystem::format(RamNor::new(512, 8)).unwrap();
    for index in 0..MAX_FILES {
        fs.write(&format!("f{index:02}"), b"").unwrap();
    }
    assert_eq!(fs.info().file_count, MAX_FILES);
    assert_eq!(fs.write("overflow", b""), Err(Error::NoSpace));
    assert!(!fs.recovery_required());
}

#[test]
fn rotating_single_block_snapshots_distribute_erases() {
    let device = RamNor::new(256, 8);
    let observer = device.clone();
    let mut fs = FileSystem::format(device).unwrap();
    for value in 0..63u8 {
        fs.write("counter", &[value]).unwrap();
    }

    let counts = observer.erase_counts();
    let minimum = *counts.iter().min().unwrap();
    let maximum = *counts.iter().max().unwrap();
    assert!(maximum - minimum <= 1, "erase distribution: {counts:?}");
    assert!(counts.iter().all(|count| *count > 0));
}

#[test]
fn multi_block_snapshot_wraps_across_partition_end() {
    let mut fs = FileSystem::format(RamNor::new(128, 8)).unwrap();
    let first = vec![0x11; 200];
    let second = vec![0x22; 200];
    let wrapped = (0..200).map(|index| index as u8).collect::<Vec<_>>();

    fs.write("blob", &first).unwrap();
    fs.write("blob", &second).unwrap();
    fs.write("blob", &wrapped).unwrap();
    assert_eq!(fs.info().active_blocks, 3);
    assert_eq!(read_all(&mut fs, "blob").unwrap(), wrapped);

    let mut remounted = FileSystem::mount(fs.into_device()).unwrap();
    assert_eq!(read_all(&mut remounted, "blob").unwrap(), wrapped);
    remounted.verify().unwrap();
}

#[test]
fn corrupt_newest_snapshot_falls_back_to_previous_generation() {
    let device = RamNor::new(256, 8);
    let observer = device.clone();
    let mut fs = FileSystem::format(device).unwrap();
    fs.write("state", b"old").unwrap();
    fs.write("state", b"new").unwrap();
    drop(fs);

    let geometry = Geometry::new(256, 8);
    let image = observer.bytes();
    let mut newest: Option<SnapshotHeader> = None;
    for block in 0..geometry.block_count {
        let offset = (block * geometry.block_size) as usize;
        let Ok(header) =
            SnapshotHeader::decode_at(&image[offset..offset + HEADER_SIZE], block, geometry)
        else {
            continue;
        };
        if newest
            .map(|current| generation_is_newer(header.generation, current.generation))
            .unwrap_or(true)
        {
            newest = Some(header);
        }
    }
    let newest = newest.unwrap();
    let payload_byte = (newest.start_block * newest.block_size) as usize + HEADER_SIZE;
    observer.overwrite_raw(payload_byte, &[image[payload_byte] ^ 0x01]);

    let mut recovered = FileSystem::mount(observer).unwrap();
    assert_eq!(read_all(&mut recovered, "state").unwrap(), b"old");
}

#[test]
fn verify_rejects_corrupted_header_and_commit_word() {
    for offset in [0, COMMIT_OFFSET] {
        let device = RamNor::new(256, 8);
        let observer = device.clone();
        let mut fs = FileSystem::format(device).unwrap();
        let image = observer.bytes();

        observer.overwrite_raw(offset, &[image[offset] ^ 0x01]);

        assert_eq!(fs.verify(), Err(Error::Corrupt), "offset={offset}");
    }
}

#[test]
fn unformatted_media_is_reported_without_writes() {
    assert!(matches!(
        FileSystem::mount(RamNor::new(256, 8)),
        Err(Error::<RamError>::NotFormatted)
    ));
}

// ---------------------------------------------------------------------------
// A larger partition
// ---------------------------------------------------------------------------

#[test]
fn sixteen_block_geometry_workflow() {
    let geometry = Geometry::new(8192, 16);
    let device = RamNor::new(geometry.block_size, geometry.block_count);
    let mut fs = FileSystem::format(device).unwrap();

    fs.mkdir("log").unwrap();

    for i in 0..8 {
        let payload = vec![i as u8; 1024 + i * 7];
        fs.write(&format!("log/log{i}.log"), &payload).unwrap();
    }
    let big = vec![0x5Au8; 40 * 1024];
    fs.write("big.bin", &big).unwrap();
    assert_eq!(fs.stat("big.bin").unwrap().size, big.len() as u32);

    let device = fs.into_device();
    let mut fs = FileSystem::mount(device).unwrap();
    assert_eq!(fs.stat("big.bin").unwrap().size, big.len() as u32);
    let mut buf = vec![0u8; 64];
    let n = fs.read("big.bin", 20 * 1024, &mut buf).unwrap();
    assert_eq!(&buf[..n], &big[20 * 1024..20 * 1024 + n]);
    for i in 0..8 {
        let info = fs.stat(&format!("log/log{i}.log")).unwrap();
        assert_eq!(info.size, (1024 + i * 7) as u32);
    }
}

// ---------------------------------------------------------------------------
// Blocks that are worn out
// ---------------------------------------------------------------------------

const BLOCK_SIZE: u32 = 4096;
const BLOCK_COUNT: u32 = 8;

#[test]
fn dead_block_is_marked_and_skipped_forever() {
    let device = RamNor::new(BLOCK_SIZE, BLOCK_COUNT);
    let mut fs = FileSystem::format(device).unwrap();
    fs.write("state", b"v1").unwrap();

    let dead = 5u32;
    fs.device().arm_dead_block(dead);

    for i in 0..24 {
        let data = pattern(i);
        fs.write("state", &data).unwrap();
        assert_eq!(read_all(&mut fs, "state").unwrap(), data);
    }

    let erase_counts = fs.device().erase_counts();
    assert_eq!(erase_counts[dead as usize], 0, "坏块不应被擦除");

    let device = fs.into_device();
    let mut fs = FileSystem::mount(device).unwrap();
    for i in 24..40 {
        let data = pattern(i);
        fs.write("state", &data).unwrap();
        assert_eq!(read_all(&mut fs, "state").unwrap(), data);
    }
    let erase_counts = fs.device().erase_counts();
    assert_eq!(erase_counts[dead as usize], 0);

    fs.device().heal_dead_block(dead);
    fs.write("state", b"after-heal").unwrap();
    assert_eq!(fs.device().erase_counts()[dead as usize], 0);
}

#[test]
fn all_candidates_dead_returns_no_space_with_old_snapshot_intact() {
    let device = RamNor::new(BLOCK_SIZE, BLOCK_COUNT);
    let mut fs = FileSystem::format(device).unwrap();
    fs.write("state", b"survives").unwrap();

    for block in 1..BLOCK_COUNT {
        fs.device().arm_dead_block(block);
    }
    assert_eq!(fs.write("state", b"nope"), Err(Error::<RamError>::NoSpace));

    assert_eq!(read_all(&mut fs, "state").unwrap(), b"survives");
    assert!(!fs.recovery_required());
}

#[test]
fn power_loss_error_is_still_fatal_not_bad_block() {
    let device = RamNor::new(BLOCK_SIZE, BLOCK_COUNT);
    let mut fs = FileSystem::format(device).unwrap();
    fs.write("state", b"v1").unwrap();
    let base = fs.into_device();

    let device = base.fork();
    device.arm_power_loss(1, [0, 1, 2, 3]);
    let mut fs = FileSystem::mount(device).unwrap();
    assert_eq!(
        fs.write("state", b"v2"),
        Err(Error::Device(RamError::PowerLoss))
    );
    assert!(fs.recovery_required());
}

#[test]
fn wear_rescale_preserves_order_and_bad_flags() {
    let device = RamNor::new(BLOCK_SIZE, BLOCK_COUNT);
    let mut fs = FileSystem::format(device).unwrap();
    fs.write("state", b"start").unwrap();

    fs.device().arm_dead_block(3);
    for i in 0..200 {
        let data = pattern(i);
        fs.write("state", &data).unwrap();
    }
    let (min, max) = fs.wear_bounds();
    assert!(
        max.saturating_sub(min) <= 2,
        "均衡失效: min={min} max={max}"
    );
    assert_eq!(fs.device().erase_counts()[3], 0);
}

#[test]
fn first_format_survives_dead_block_zero() {
    let device = RamNor::new(BLOCK_SIZE, BLOCK_COUNT);
    device.arm_dead_block(0);

    let mut fs = FileSystem::format(device).unwrap();

    assert_eq!(fs.device().erase_counts()[0], 0, "坏块不应被擦除");
    fs.write("state", b"v1").unwrap();
    assert_eq!(read_all(&mut fs, "state").unwrap(), b"v1");

    let device = fs.into_device();
    let mut fs = FileSystem::mount(device).unwrap();
    fs.write("state", b"v2").unwrap();
    assert_eq!(read_all(&mut fs, "state").unwrap(), b"v2");
}

#[test]
fn first_format_all_blocks_dead_returns_no_space() {
    let device = RamNor::new(BLOCK_SIZE, BLOCK_COUNT);
    for block in 0..BLOCK_COUNT {
        device.arm_dead_block(block);
    }
    assert!(matches!(
        FileSystem::format(device),
        Err(Error::<RamError>::NoSpace)
    ));
}

fn pattern(seed: u32) -> Vec<u8> {
    (0..64).map(|index| (index * 31 + seed * 7) as u8).collect()
}

// ---------------------------------------------------------------------------
// Wear
// ---------------------------------------------------------------------------

const COLD_NAME: &str = "cold-config";

#[test]
fn mixed_span_workload_distributes_erases_and_persists() {
    let geometry = Geometry::new(256, 8);
    let device = RamNor::new(geometry.block_size, geometry.block_count);
    let observer = device.clone();
    let mut fs = FileSystem::format(device).unwrap();

    for round in 0..64 {
        fs.write("big", &[]).unwrap();

        let big = vec![round as u8; 4 * 256 - HEADER_SIZE - 16 - 25];
        fs.write("big", &big).unwrap();
    }

    let counts = observer.erase_counts();
    let minimum = *counts.iter().min().unwrap();
    let maximum = *counts.iter().max().unwrap();
    assert!(
        maximum - minimum <= 2,
        "mixed spans distribute erases: {counts:?}"
    );

    let device = fs.into_device();
    let mut remounted = FileSystem::mount(device).unwrap();
    let (min_ram, max_ram) = remounted.wear_bounds();
    assert_eq!((min_ram, max_ram), (minimum, maximum), "wear table persists");
    assert_eq!(remounted.info().min_erase_count, minimum);
    assert_eq!(remounted.info().max_erase_count, maximum);
    remounted.verify().unwrap();
}

#[test]
fn wear_table_sits_after_the_header_on_disk() {
    let geometry = Geometry::new(512, 8);
    let mut fs = FileSystem::format(RamNor::new(512, 8)).unwrap();
    fs.write("state", b"value").unwrap();
    let image = fs.into_device().bytes();

    let mut newest: Option<SnapshotHeader> = None;
    for block in 0..geometry.block_count {
        let offset = (block * geometry.block_size) as usize;
        let Ok(header) =
            SnapshotHeader::decode_at(&image[offset..offset + HEADER_SIZE], block, geometry)
        else {
            continue;
        };
        if newest
            .map(|current| {
                generation_is_newer(header.generation, current.generation)
            })
            .unwrap_or(true)
        {
            newest = Some(header);
        }
    }
    let newest = newest.expect("committed snapshot exists");
    let start = (newest.start_block * geometry.block_size) as usize + HEADER_SIZE;
    let mut table = [0u16; 64];
    decode_wear_table(&image[start..start + 16], geometry.block_count, &mut table).unwrap();
    assert_eq!(table[..geometry.block_count as usize], [1, 1, 0, 0, 0, 0, 0, 0]);
}

fn imbalanced_device() -> (RamNor, RamNor) {
    let geometry = Geometry::new(512, 8);
    let data = b"cold-config";
    let record = RecordHeader::new(COLD_NAME.len() as u16, data.len() as u32, crc32_mpeg2(data), 0)
        .unwrap();
    let mut wear = [0u16; 64];
    wear[0] = 1;
    wear[1] = 1;
    wear[4..8].fill(100);
    let mut payload = vec![0u8; MAX_WEAR_TABLE_SIZE];
    let table_size = encode_wear_table(&wear, geometry.block_count, &mut payload).unwrap();
    payload.truncate(table_size);
    payload.extend_from_slice(&record.encode().unwrap());
    payload.extend_from_slice(COLD_NAME.as_bytes());
    payload.extend_from_slice(data);
    payload.resize(
        payload.len() + record.record_len as usize - 20 - COLD_NAME.len() - data.len(),
        0,
    );

    let header = SnapshotHeader::new(
        0,
        0,
        payload.len() as u32,
        crc32_mpeg2(&payload),
        1,
        geometry,
    )
    .unwrap();
    let device = RamNor::new(geometry.block_size, geometry.block_count);
    device.overwrite_raw(0, &header.encode_committed().unwrap());
    device.overwrite_raw(HEADER_SIZE, &payload);
    let observer = device.clone();
    (device, observer)
}

#[test]
fn level_relocates_snapshot_to_least_worn_candidate() {
    let (device, observer) = imbalanced_device();
    let mut fs = FileSystem::mount(device).unwrap();
    assert_eq!(read_all(&mut fs, COLD_NAME).unwrap(), b"cold-config");
    assert_eq!(fs.wear_bounds(), (0, 100));

    let generation_before = fs.info().generation;
    fs.level().unwrap();

    let counts = observer.erase_counts();
    assert_eq!(&counts[..8], &[0, 0, 1, 0, 0, 0, 0, 0]);
    assert_eq!(fs.info().generation, generation_before + 1);
    assert_eq!(read_all(&mut fs, COLD_NAME).unwrap(), b"cold-config");
    fs.verify().unwrap();

    let mut remounted = FileSystem::mount(observer).unwrap();
    assert_eq!(read_all(&mut remounted, COLD_NAME).unwrap(), b"cold-config");
}

#[test]
fn level_is_a_noop_when_balanced() {
    let mut fs = FileSystem::format(RamNor::new(256, 8)).unwrap();
    for value in 0..20u8 {
        fs.write("counter", &[value]).unwrap();
    }
    let device = fs.into_device();
    let observer = device.clone();
    let mut mounted = FileSystem::mount(device).unwrap();
    let generation_before = mounted.info().generation;
    observer.reset_events();
    mounted.level().unwrap();
    assert_eq!(observer.events(), 0, "no-op level must not touch the device");
    assert_eq!(mounted.info().generation, generation_before);
}

#[test]
fn reformat_keeps_erase_counts_monotonic() {
    let device = RamNor::new(256, 8);
    let mut fs = FileSystem::format(device).unwrap();
    for value in 0..12u8 {
        fs.write("state", &[value]).unwrap();
    }
    let before = fs.info().max_erase_count;
    assert!(before > 0);
    let device = fs.into_device();

    let mut reformatted = FileSystem::format(device).unwrap();
    assert_eq!(reformatted.info().file_count, 0);
    assert!(
        reformatted.info().max_erase_count >= before,
        "counters never reset on reformat"
    );
    reformatted.verify().unwrap();
}

#[test]
fn wear_bounds_reflect_on_disk_table() {
    let device = RamNor::new(256, 8);
    let observer = device.clone();
    let mut fs = FileSystem::format(device).unwrap();
    for value in 0..30u8 {
        fs.write("hot", &[value]).unwrap();
    }
    let (min_ram, max_ram) = fs.wear_bounds();
    let counts = observer.erase_counts();
    assert_eq!(min_ram, *counts.iter().min().unwrap());
    assert_eq!(max_ram, *counts.iter().max().unwrap());

    let remounted = FileSystem::mount(fs.into_device()).unwrap();
    assert_eq!(remounted.wear_bounds(), (min_ram, max_ram));
    assert_eq!(remounted.info().min_erase_count, min_ram);
    assert_eq!(remounted.info().max_erase_count, max_ram);
}

#[test]
fn level_has_atomic_power_loss_semantics() {
    let (base, _) = imbalanced_device();

    let event_count = {
        let fork = base.fork();
        let observer = fork.clone();
        let mut fs = FileSystem::mount(fork).unwrap();
        observer.reset_events();
        fs.level().unwrap();
        observer.events()
    };
    assert!(event_count > 0);

    for cut in 0..event_count {
        let fork = base.fork();
        fork.arm_power_loss(cut, [1, 0, 3, 2]);
        let mut fs = FileSystem::mount(fork).unwrap();
        assert!(fs.level().is_err());
        assert!(fs.recovery_required());

        let recovered_device = fs.into_device();
        recovered_device.power_cycle();
        let mut recovered = FileSystem::mount(recovered_device).unwrap();
        assert_eq!(
            read_all(&mut recovered, COLD_NAME).unwrap(),
            b"cold-config",
            "cut={cut}"
        );
        recovered.verify().unwrap();
    }
}

#[test]
fn half_partition_snapshots_alternate_evenly() {
    let geometry = Geometry::new(256, 8);
    let device = RamNor::new(geometry.block_size, geometry.block_count);
    let observer = device.clone();
    let mut fs = FileSystem::format(device).unwrap();
    let big = vec![0x5a; 4 * 256 - HEADER_SIZE - 16 - 25];
    for _ in 0..20 {
        fs.write("big", &big).unwrap();
    }
    let counts = observer.erase_counts();
    let minimum = *counts.iter().min().unwrap();
    let maximum = *counts.iter().max().unwrap();
    assert!(maximum - minimum <= 2, "half-partition alternation: {counts:?}");
}

#[test]
fn level_fault_requires_remount() {
    let (device, _) = imbalanced_device();
    let fork = device.fork();
    fork.arm_power_loss(0, [0, 1, 2, 3]);
    let mut fs = FileSystem::mount(fork).unwrap();
    assert_eq!(
        fs.level(),
        Err(Error::Device(RamError::PowerLoss)),
        "first erase fails with injected fault"
    );
    assert!(fs.recovery_required());
    assert_eq!(fs.level(), Err(Error::RecoveryRequired));
}

// ---------------------------------------------------------------------------
// Power failures
// ---------------------------------------------------------------------------

const TEAR_ORDERS: [[usize; 4]; 4] = [[0, 1, 2, 3], [3, 2, 1, 0], [2, 0, 3, 1], [1, 3, 0, 2]];

fn seeded(name: &str, data: &[u8]) -> RamNor {
    let mut fs = FileSystem::format(RamNor::new(128, 8)).unwrap();
    fs.write(name, data).unwrap();
    fs.into_device()
}

fn assert_power_loss<E>(result: Result<(), Error<E>>)
where
    E: core::fmt::Debug + PartialEq,
{
    assert!(result.is_err());
}

fn measured_write_events(base: &RamNor, name: &str, data: &[u8]) -> u64 {
    let device = base.fork();
    let observer = device.clone();
    let mut fs = FileSystem::mount(device).unwrap();
    observer.reset_events();
    fs.write(name, data).unwrap();
    observer.events()
}

#[test]
fn every_first_format_cut_is_empty_or_not_formatted() {
    let base = RamNor::new(128, 8);
    let event_count = measured_format_events(&base);
    assert!(event_count > 0);

    for order in TEAR_ORDERS {
        for cut in 0..event_count {
            let device = base.fork();
            let observer = device.clone();
            device.arm_power_loss(cut, order);
            let result = FileSystem::format(device);
            assert!(result.is_err(), "cut={cut} order={order:?} 不应完成");

            observer.power_cycle();
            match FileSystem::mount(observer) {
                Ok(mut recovered) => {
                    assert_eq!(recovered.info().file_count, 0, "cut={cut} order={order:?}");
                    assert_eq!(
                        recovered.stat("anything"),
                        Err(Error::NotFound),
                        "cut={cut} order={order:?}"
                    );
                    recovered.verify().unwrap();
                }
                Err(Error::NotFormatted) => {}
                Err(error) => panic!("cut={cut} order={order:?}: {error:?}"),
            }
        }
    }
}

#[test]
fn every_new_file_write_cut_is_absent_or_complete() {
    let value = b"brand-new-file-payload";
    let base = seeded("existing", b"untouched");

    let device = base.fork();
    let observer = device.clone();
    let mut fs = FileSystem::mount(device).unwrap();
    observer.reset_events();
    fs.write("added", value).unwrap();
    let event_count = observer.events();
    assert!(event_count > 0);

    for order in TEAR_ORDERS {
        for cut in 0..event_count {
            let device = base.fork();
            let observer = device.clone();
            device.arm_power_loss(cut, order);
            let mut fs = FileSystem::mount(device).unwrap();
            assert_power_loss(fs.write("added", value));

            observer.power_cycle();
            let mut recovered = FileSystem::mount(observer)
                .unwrap_or_else(|error| panic!("new-file cut={cut} order={order:?}: {error:?}"));
            assert_eq!(read_all(&mut recovered, "existing").unwrap(), b"untouched");
            match recovered.stat("added") {
                Ok(_) => assert_eq!(
                    read_all(&mut recovered, "added").unwrap(),
                    value,
                    "cut={cut} order={order:?}"
                ),
                Err(Error::NotFound) => {}
                other => panic!("cut={cut} order={order:?}: {other:?}"),
            }
            recovered.verify().unwrap();
        }
    }
}

#[test]
fn every_clear_cut_is_old_files_or_empty() {
    let mut fs = FileSystem::format(RamNor::new(128, 8)).unwrap();
    fs.write("a", b"one").unwrap();
    fs.write("b", b"two").unwrap();
    fs.mkdir("d").unwrap();
    fs.write("d/c", b"three").unwrap();
    let base = fs.into_device();

    let device = base.fork();
    let observer = device.clone();
    let mut fs = FileSystem::mount(device).unwrap();
    observer.reset_events();
    fs.clear().unwrap();
    let event_count = observer.events();
    assert!(event_count > 0);

    for cut in 0..event_count {
        let device = base.fork();
        let observer = device.clone();
        device.arm_power_loss(cut, TEAR_ORDERS[3]);
        let mut fs = FileSystem::mount(device).unwrap();
        assert_power_loss(fs.clear());

        observer.power_cycle();
        let mut recovered = FileSystem::mount(observer).unwrap();
        if recovered.info().file_count == 0 {
            assert_eq!(
                recovered.stat("a"),
                Err(Error::NotFound),
                "cut={cut}: 空快照不得残留条目"
            );
            assert_eq!(
                recovered.stat("d/c"),
                Err(Error::NotFound),
                "cut={cut}: 空快照不得残留目录树"
            );
        } else {
            assert_eq!(read_all(&mut recovered, "a").unwrap(), b"one", "cut={cut}");
            assert_eq!(read_all(&mut recovered, "b").unwrap(), b"two", "cut={cut}");
            assert_eq!(
                read_all(&mut recovered, "d/c").unwrap(),
                b"three",
                "cut={cut}"
            );
        }
        recovered.verify().unwrap();
    }
}

#[test]
fn geometry16_write_cut_recovers_one_complete_version() {
    let old = vec![0x21; 9_000];
    let new = vec![0x42; 9_000];
    let mut fs = FileSystem::format(RamNor::new(8192, 16)).unwrap();
    fs.write("blob", &old).unwrap();
    let base = fs.into_device();

    let event_count = measured_write_events(&base, "blob", &new);
    assert!(event_count > 0);
    for cut in 0..event_count {
        let device = base.fork();
        device.arm_power_loss(cut, TEAR_ORDERS[1]);
        let mut fs = FileSystem::mount(device).unwrap();
        assert_power_loss(fs.write("blob", &new));

        let recovered_device = fs.into_device();
        recovered_device.power_cycle();
        let mut recovered = FileSystem::mount(recovered_device)
            .unwrap_or_else(|error| panic!("geometry16 cut={cut}: {error:?}"));
        let value = read_all(&mut recovered, "blob").unwrap();
        assert!(value == old || value == new, "geometry16 cut={cut}");

        recovered.info();
        recovered.verify().unwrap();
    }
}

#[test]
fn every_write_cut_recovers_one_complete_version() {
    let old = b"old-complete-value";
    let new = b"new-complete-value-with-more-data";
    let base = seeded("state", old);
    let event_count = measured_write_events(&base, "state", new);
    assert!(event_count > 0);

    for order in TEAR_ORDERS {
        for cut in 0..event_count {
            let device = base.fork();
            device.arm_power_loss(cut, order);
            let mut fs = FileSystem::mount(device).unwrap();
            let result = fs.write("state", new);
            assert_power_loss(result);
            assert!(fs.recovery_required(), "cut={cut} order={order:?}");
            assert_eq!(fs.write("must-not-run", b"x"), Err(Error::RecoveryRequired));

            let recovered_device = fs.into_device();
            recovered_device.power_cycle();
            let mut recovered = FileSystem::mount(recovered_device)
                .unwrap_or_else(|error| panic!("cut={cut} order={order:?}: {error:?}"));
            let value = read_all(&mut recovered, "state").unwrap();
            assert!(
                value == old || value == new,
                "cut={cut} order={order:?}: {value:?}"
            );
        }
    }
}

#[test]
fn every_cut_of_wrapped_three_block_write_is_recoverable() {
    let old = vec![0x41; 200];
    let new = (0..200).map(|index| (index * 3) as u8).collect::<Vec<_>>();

    let mut fs = FileSystem::format(RamNor::new(128, 8)).unwrap();
    fs.write("blob", &[0x20; 200]).unwrap();
    fs.write("blob", &old).unwrap();
    let base = fs.into_device();

    let event_count = measured_write_events(&base, "blob", &new);
    for cut in 0..event_count {
        let device = base.fork();
        device.arm_power_loss(cut, TEAR_ORDERS[3]);
        let mut fs = FileSystem::mount(device).unwrap();
        assert_power_loss(fs.write("blob", &new));

        let recovered_device = fs.into_device();
        recovered_device.power_cycle();
        let mut recovered = FileSystem::mount(recovered_device)
            .unwrap_or_else(|error| panic!("wrapped cut={cut}: {error:?}"));
        let value = read_all(&mut recovered, "blob").unwrap();
        assert!(value == old || value == new, "wrapped cut={cut}");
    }
}

fn measured_remove_events(base: &RamNor) -> u64 {
    let device = base.fork();
    let observer = device.clone();
    let mut fs = FileSystem::mount(device).unwrap();
    observer.reset_events();
    fs.remove("obsolete").unwrap();
    observer.events()
}

#[test]
fn every_remove_cut_is_old_or_removed() {
    let old = b"must-remain-complete";
    let base = seeded("obsolete", old);
    let event_count = measured_remove_events(&base);

    for cut in 0..event_count {
        let device = base.fork();
        device.arm_power_loss(cut, TEAR_ORDERS[2]);
        let mut fs = FileSystem::mount(device).unwrap();
        assert_power_loss(fs.remove("obsolete"));

        let recovered_device = fs.into_device();
        recovered_device.power_cycle();
        let mut recovered = FileSystem::mount(recovered_device).unwrap();
        match recovered.stat("obsolete") {
            Ok(_) => assert_eq!(read_all(&mut recovered, "obsolete").unwrap(), old),
            Err(Error::NotFound) => {}
            other => panic!("cut={cut}: {other:?}"),
        }
    }
}

fn measured_rename_events(base: &RamNor) -> u64 {
    let device = base.fork();
    let observer = device.clone();
    let mut fs = FileSystem::mount(device).unwrap();
    observer.reset_events();
    fs.rename("before", "after").unwrap();
    observer.events()
}

#[test]
fn every_rename_cut_has_exactly_one_name() {
    let value = b"rename-payload";
    let base = seeded("before", value);
    let event_count = measured_rename_events(&base);

    for order in TEAR_ORDERS {
        for cut in 0..event_count {
            let device = base.fork();
            device.arm_power_loss(cut, order);
            let mut fs = FileSystem::mount(device).unwrap();
            assert_power_loss(fs.rename("before", "after"));

            let recovered_device = fs.into_device();
            recovered_device.power_cycle();
            let mut recovered = FileSystem::mount(recovered_device).unwrap();
            let before = recovered.stat("before").is_ok();
            let after = recovered.stat("after").is_ok();
            assert_ne!(before, after, "cut={cut} order={order:?}");
            let name = if before { "before" } else { "after" };
            assert_eq!(read_all(&mut recovered, name).unwrap(), value);
        }
    }
}

fn measured_mkdir_events(base: &RamNor) -> u64 {
    let device = base.fork();
    let observer = device.clone();
    let mut fs = FileSystem::mount(device).unwrap();
    observer.reset_events();
    fs.mkdir("created").unwrap();
    observer.events()
}

#[test]
fn every_mkdir_cut_is_absent_or_a_complete_directory() {
    let fs = FileSystem::format(RamNor::new(128, 8)).unwrap();
    let base = fs.into_device();
    let event_count = measured_mkdir_events(&base);

    for cut in 0..event_count {
        let device = base.fork();
        device.arm_power_loss(cut, TEAR_ORDERS[0]);
        let mut fs = FileSystem::mount(device).unwrap();
        assert_power_loss(fs.mkdir("created"));

        let recovered_device = fs.into_device();
        recovered_device.power_cycle();
        let mut recovered = FileSystem::mount(recovered_device).unwrap();
        match recovered.stat("created") {
            Ok(info) => assert_eq!(info.kind, EntryKind::Directory, "cut={cut}"),
            Err(Error::NotFound) => {}
            other => panic!("cut={cut}: {other:?}"),
        }
        recovered.verify().unwrap();
    }
}

fn measured_rmdir_events(base: &RamNor) -> u64 {
    let device = base.fork();
    let observer = device.clone();
    let mut fs = FileSystem::mount(device).unwrap();
    observer.reset_events();
    fs.rmdir("empty").unwrap();
    observer.events()
}

#[test]
fn every_rmdir_cut_is_present_or_completely_removed() {
    let mut fs = FileSystem::format(RamNor::new(128, 8)).unwrap();
    fs.mkdir("empty").unwrap();
    let base = fs.into_device();
    let event_count = measured_rmdir_events(&base);

    for cut in 0..event_count {
        let device = base.fork();
        device.arm_power_loss(cut, TEAR_ORDERS[1]);
        let mut fs = FileSystem::mount(device).unwrap();
        assert_power_loss(fs.rmdir("empty"));

        let recovered_device = fs.into_device();
        recovered_device.power_cycle();
        let mut recovered = FileSystem::mount(recovered_device).unwrap();
        match recovered.stat("empty") {
            Ok(info) => assert_eq!(info.kind, EntryKind::Directory, "cut={cut}"),
            Err(Error::NotFound) => {}
            other => panic!("cut={cut}: {other:?}"),
        }
        recovered.verify().unwrap();
    }
}

fn directory_tree() -> RamNor {
    let mut fs = FileSystem::format(RamNor::new(128, 8)).unwrap();
    fs.mkdir("tree").unwrap();
    fs.mkdir("tree/sub").unwrap();
    fs.write("tree/root", b"root-value").unwrap();
    fs.write("tree/sub/leaf", b"leaf-value").unwrap();
    fs.write("treehouse", b"prefix-neighbor").unwrap();
    fs.into_device()
}

fn measured_directory_rename_events(base: &RamNor) -> u64 {
    let device = base.fork();
    let observer = device.clone();
    let mut fs = FileSystem::mount(device).unwrap();
    observer.reset_events();
    fs.rename("tree", "moved").unwrap();
    observer.events()
}

#[test]
fn every_directory_rename_cut_recovers_one_complete_tree() {
    let base = directory_tree();
    let event_count = measured_directory_rename_events(&base);

    for order in TEAR_ORDERS {
        for cut in 0..event_count {
            let device = base.fork();
            device.arm_power_loss(cut, order);
            let mut fs = FileSystem::mount(device).unwrap();
            assert_power_loss(fs.rename("tree", "moved"));

            let recovered_device = fs.into_device();
            recovered_device.power_cycle();
            let mut recovered = FileSystem::mount(recovered_device).unwrap_or_else(|error| {
                panic!("directory rename cut={cut} order={order:?}: {error:?}")
            });
            let old = recovered.stat("tree").is_ok();
            let new = recovered.stat("moved").is_ok();
            assert_ne!(old, new, "cut={cut} order={order:?}");

            let root = if old { "tree" } else { "moved" };
            let other = if old { "moved" } else { "tree" };
            assert_eq!(
                recovered.stat(root).unwrap().kind,
                EntryKind::Directory,
                "cut={cut} order={order:?}"
            );
            assert_eq!(
                recovered.stat(&format!("{root}/sub")).unwrap().kind,
                EntryKind::Directory
            );
            assert_eq!(
                read_all(&mut recovered, &format!("{root}/root")).unwrap(),
                b"root-value"
            );
            assert_eq!(
                read_all(&mut recovered, &format!("{root}/sub/leaf")).unwrap(),
                b"leaf-value"
            );
            assert_eq!(recovered.stat(other), Err(Error::NotFound));
            assert_eq!(
                recovered.stat(&format!("{other}/sub/leaf")),
                Err(Error::NotFound)
            );
            assert_eq!(
                read_all(&mut recovered, "treehouse").unwrap(),
                b"prefix-neighbor"
            );
            recovered.verify().unwrap();
        }
    }
}

fn measured_format_events(base: &RamNor) -> u64 {
    let device = base.fork();
    let observer = device.clone();
    observer.reset_events();
    let _fs = FileSystem::format(device).unwrap();
    observer.events()
}

#[test]
fn every_reformat_cut_is_old_or_empty() {
    let value = b"preserved-until-empty-commit";
    let base = seeded("state", value);
    let event_count = measured_format_events(&base);

    for cut in 0..event_count {
        let device = base.fork();
        let observer = device.clone();
        observer.arm_power_loss(cut, TEAR_ORDERS[1]);
        let result = FileSystem::format(device);
        assert!(result.is_err(), "cut {cut} unexpectedly completed");

        observer.power_cycle();
        let mut recovered = FileSystem::mount(observer).unwrap();
        match recovered.stat("state") {
            Ok(_) => assert_eq!(read_all(&mut recovered, "state").unwrap(), value),
            Err(Error::NotFound) => assert_eq!(recovered.info().file_count, 0),
            other => panic!("cut={cut}: {other:?}"),
        }
    }
}

#[test]
fn injected_device_error_requires_remount() {
    let base = seeded("state", b"old");
    let device = base.fork();
    device.arm_power_loss(0, TEAR_ORDERS[0]);
    let mut fs = FileSystem::mount(device).unwrap();
    assert_eq!(
        fs.write("state", b"new"),
        Err(Error::Device(RamError::PowerLoss))
    );
    assert_eq!(fs.remove("state"), Err(Error::RecoveryRequired));
}
