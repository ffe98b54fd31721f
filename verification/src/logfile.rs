//! Saving the log to files in the directory `log`.
//!
//! Entries are moved from the buffer to the image of the current file, as many as fit
//! into it. When no more fit, the image is written, and a new file with the next
//! segment number is begun; each file begins with the number of the boot. Only an
//! entry that is too long for any file makes a file longer than the limit, and has it
//! for itself. Files beyond the number that is kept are removed, the oldest first.

use vstd::prelude::*;
use vstd::string::StringSliceAdditionalSpecFns;

use crate::filesystem;
use crate::littlefs::tree::{Edit, Entry};
use crate::littlefs::{BlockDevice, Error, FileInfo, FileSystem};
use crate::log::{self, Settings};
use crate::logfile_core;
use crate::logring::{Item, LogRing};

verus! {

/// Files that are looked at.
pub const COLLECT_CAP: usize = 32;

/// What is being saved.
pub struct FlushState {
    boot_no: u64,
    segment: u32,
    image: Vec<u8>,
    scanned: bool,
}

impl FlushState {
    /// The number of this boot.
    pub closed spec fn boot(self) -> u64 {
        self.boot_no
    }

    /// The segment that is being written.
    pub closed spec fn part(self) -> u32 {
        self.segment
    }

    /// What the file of the segment holds, or will hold.
    pub closed spec fn text(self) -> Seq<u8> {
        self.image@
    }

    /// The number of this boot has been found.
    pub closed spec fn numbered(self) -> bool {
        self.scanned
    }

    /// Nothing has been saved.
    pub fn new() -> (r: Self)
        ensures
            r.boot() == 1,
            r.part() == 0,
            r.text() == Seq::<u8>::empty(),
            !r.numbered(),
    {
        FlushState { boot_no: 1, segment: 0, image: Vec::new(), scanned: false }
    }

    /// The segment that is being written.
    pub fn segment(&self) -> (r: u32)
        ensures
            r == self.part(),
    {
        self.segment
    }
}

// ---------------------------------------------------------------------------
// The files
// ---------------------------------------------------------------------------

/// The directory.
pub open spec fn log_dir() -> Seq<u8> {
    seq![0x6cu8, 0x6f, 0x67]
}

/// The path of a file in the directory.
pub open spec fn path_to(name: Seq<u8>) -> Seq<u8> {
    seq![0x6cu8, 0x6f, 0x67, 0x2f] + name
}

/// The path of the file of a segment.
pub open spec fn slot_of(boot: u64, segment: u32) -> Seq<u8> {
    path_to(logfile_core::name_of(boot, segment))
}

/// The directory itself, or something in it.
pub open spec fn in_logs(name: Seq<u8>) -> bool {
    name == log_dir() || crate::littlefs::names::descendant(name, log_dir())
}

/// Nothing outside of the directory has changed.
pub open spec fn others_kept(before: Seq<Entry>, after: Seq<Entry>) -> bool {
    forall|name: Seq<u8>|
        !in_logs(name) ==> #[trigger] crate::littlefs::tree::lookup(after, name)
            == crate::littlefs::tree::lookup(before, name)
}

/// The boot and the segment of a log file; files of an older kind belong to boot 0.
pub open spec fn file_of(name: Seq<u8>) -> Option<(u64, u32)> {
    match logfile_core::segment_of(name) {
        Some(file) => Some(file),
        None => logfile_core::slot_of(name),
    }
}

/// The log files among entries of the directory, 32 of them at most.
pub open spec fn logs_among(es: Seq<Entry>) -> Seq<Entry>
    decreases es.len(),
{
    if es.len() == 0 {
        Seq::empty()
    } else {
        let head = logs_among(es.drop_last());
        if head.len() < COLLECT_CAP && file_of(
            crate::littlefs::names::base_of(es.last().name),
        ) is Some {
            head.push(es.last())
        } else {
            head
        }
    }
}

/// The log files of a file system.
pub open spec fn logs_of(es: Seq<Entry>) -> Seq<Entry> {
    match crate::littlefs::tree::lookup(es, log_dir()) {
        Some(dir) => if dir.directory {
            logs_among(crate::littlefs::fs::children(es, Some(log_dir())))
        } else {
            Seq::empty()
        },
        None => Seq::empty(),
    }
}

/// These log files were found: all of them, or, if the device failed, those before that.
pub open spec fn found_logs(es: Seq<Entry>, files: Seq<Entry>, whole: bool) -> bool {
    ||| files == logs_of(es)
    ||| !whole && exists|k: int|
        0 <= k <= crate::littlefs::fs::children(es, Some(log_dir())).len() && files == logs_among(
            #[trigger] crate::littlefs::fs::children(es, Some(log_dir())).take(k),
        )
}

/// Looking for the log files, which took the file system from `before` to `after`, found
/// these.
pub open spec fn looked<D: BlockDevice>(
    before: FileSystem<D>,
    after: FileSystem<D>,
    files: Seq<Entry>,
) -> bool {
    &&& after.only_read(before)
    &&& found_logs(before.entries(), files, after.dev().faults() == before.dev().faults())
}

/// Boot and segment of a log file.
pub open spec fn number_of(e: Entry) -> (u64, u32) {
    file_of(crate::littlefs::names::base_of(e.name))->0
}

/// Boots and segments of log files.
pub open spec fn numbers(es: Seq<Entry>) -> Seq<(u64, u32)> {
    es.map_values(|e: Entry| number_of(e))
}

/// Entry `i` is the oldest log file.
pub open spec fn is_oldest(es: Seq<Entry>, i: int) -> bool {
    0 <= i < es.len() && logfile_core::oldest_in(numbers(es)) == Some(number_of(es[i]))
}

/// The log files as they were listed.
struct LogFiles {
    names: Vec<String>,
    files: Vec<(u64, u32)>,
}

impl LogFiles {
    /// The list shows these files.
    spec fn shows(self, es: Seq<Entry>) -> bool {
        &&& self.files@ == numbers(es)
        &&& self.names@.len() == es.len()
        &&& forall|i: int|
            0 <= i < es.len() ==> vstd::utf8::encode_utf8((#[trigger] self.names@[i])@)
                == crate::littlefs::names::base_of(es[i].name)
    }
}

/// The directory is a valid path.
proof fn lemma_log_dir()
    ensures
        crate::littlefs::names::valid_name(log_dir()),
        "log".spec_bytes() == log_dir(),
{
    reveal_strlit("log");
    vstd::string::is_ascii_spec_bytes("log");
    assert("log".spec_bytes() =~= log_dir());
    let n = log_dir();
    assert forall|i: int, j: int| #[trigger]
        crate::littlefs::names::is_component(n, i, j) implies crate::littlefs::names::good_component(
        n.subrange(i, j),
    ) by {
        if i > 0 {
            assert(n[i - 1] != 0x2f);
        }
        if j < n.len() {
            assert(n[j] != 0x2f);
        }
        assert(n.subrange(i, j) =~= n);
    }
}

/// An entry of the directory is found under its name behind the directory.
proof fn lemma_child(name: Seq<u8>)
    requires
        crate::littlefs::names::parent_of(name) == Some(log_dir()),
    ensures
        name == path_to(crate::littlefs::names::base_of(name)),
        in_logs(name),
{
    crate::littlefs::names::lemma_last_slash(name);
    let k = crate::littlefs::names::last_slash(name);
    assert(name.take(k) == log_dir());
    assert(k == 3);
    assert(name.take(k)[0] == name[0] && name.take(k)[1] == name[1] && name.take(k)[2] == name[2]);
    assert(name =~= path_to(name.skip(4)));
    assert(name.take(3) == log_dir());
}

/// What lies in a directory has it as its parent.
proof fn lemma_children(es: Seq<Entry>, dir: Option<Seq<u8>>, i: int)
    requires
        0 <= i < crate::littlefs::fs::children(es, dir).len(),
    ensures
        crate::littlefs::names::parent_of(crate::littlefs::fs::children(es, dir)[i].name) == dir,
    decreases es.len(),
{
    if es.len() > 0 {
        let head = crate::littlefs::fs::children(es.drop_last(), dir);
        if i < head.len() {
            lemma_children(es.drop_last(), dir, i);
        }
    }
}

/// Log files are among the entries of which they were picked.
proof fn lemma_logs_among(es: Seq<Entry>, i: int) -> (j: int)
    requires
        0 <= i < logs_among(es).len(),
    ensures
        0 <= j < es.len(),
        logs_among(es)[i] == es[j],
        file_of(crate::littlefs::names::base_of(es[j].name)) is Some,
    decreases es.len(),
{
    let head = logs_among(es.drop_last());
    if i < head.len() {
        let j = lemma_logs_among(es.drop_last(), i);
        assert(es.drop_last()[j] == es[j]);
        j
    } else {
        es.len() - 1
    }
}

/// A log file lies in the directory.
proof fn lemma_log(es: Seq<Entry>, files: Seq<Entry>, whole: bool, i: int)
    requires
        found_logs(es, files, whole),
        0 <= i < files.len(),
    ensures
        in_logs(files[i].name),
        files[i].name == path_to(crate::littlefs::names::base_of(files[i].name)),
{
    let cs = crate::littlefs::fs::children(es, Some(log_dir()));
    let k = if files == logs_of(es) {
        cs.len() as int
    } else {
        choose|k: int| 0 <= k <= cs.len() && files == logs_among(#[trigger] cs.take(k))
    };
    assert(cs.take(cs.len() as int) =~= cs);
    let j = lemma_logs_among(cs.take(k), i);
    assert(cs.take(k)[j] == cs[j]);
    lemma_children(es, Some(log_dir()), j);
    lemma_child(cs[j].name);
}

/// The oldest of some files is one of them.
proof fn lemma_oldest_is_there(files: Seq<(u64, u32)>)
    ensures
        logfile_core::oldest_in(files) matches Some(file) ==> files.contains(file),
        files.len() > 0 ==> logfile_core::oldest_in(files) is Some,
    decreases files.len(),
{
    if files.len() > 0 {
        let head = files.drop_last();
        lemma_oldest_is_there(head);
        assert(files[files.len() - 1] == files.last());
        if logfile_core::oldest_in(head) is Some {
            let file = logfile_core::oldest_in(head)->0;
            let i = choose|i: int| 0 <= i < head.len() && head[i] == file;
            assert(files[i] == file);
        }
    }
}

/// Find a file in the list.
fn find_file(files: &Vec<(u64, u32)>, wanted: (u64, u32)) -> (r: usize)
    requires
        files@.contains(wanted),
    ensures
        r < files@.len(),
        files@[r as int] == wanted,
{
    let count: usize = files.len();
    let mut i: usize = 0;
    while files[i].0 != wanted.0 || files[i].1 != wanted.1
        invariant
            i < files@.len(),
            count == files@.len(),
            files@.contains(wanted),
            forall|j: int| 0 <= j < i ==> #[trigger] files@[j] != wanted,
        decreases files@.len() - i,
    {
        proof {
            let k = choose|k: int| 0 <= k < files@.len() && files@[k] == wanted;
            assert(k > i);
        }
        i += 1;
    }
    i
}

/// List the log files; if the device fails, those before that.
fn collect_log_files<D: BlockDevice>(fs: &mut FileSystem<D>) -> (r: LogFiles)
    requires
        old(fs).inv(),
    ensures
        final(fs).only_read(*old(fs)),
        exists|files: Seq<Entry>| #[trigger] r.shows(files) && looked(*old(fs), *final(fs), files),
{
    let mut names: Vec<String> = Vec::new();
    let mut files: Vec<(u64, u32)> = Vec::new();
    let ghost es = fs.entries();
    let ghost faults = fs.dev().faults();
    let ghost cs = crate::littlefs::fs::children(es, Some(log_dir()));
    proof {
        lemma_log_dir();
    }
    let mut list: Vec<(String, FileInfo)> = Vec::new();
    let _ = fs.read_dir("log", &mut list);
    let ghost k = list@.len() as int;
    let ghost part = cs.take(k);
    let mut i: usize = 0;
    proof {
        assert(list@.skip(0) =~= list@);
        assert(logs_among(part.take(0)) =~= Seq::empty());
        assert(numbers(logs_among(part.take(0))) =~= files@);
    }
    while i < list.len()
        invariant
            i <= list@.len(),
            crate::littlefs::fs::lists(
                list@,
                part,
                |name: Seq<u8>| crate::littlefs::names::base_of(name),
            ),
            (LogFiles { names, files }).shows(logs_among(part.take(i as int))),
        decreases list@.len() - i,
    {
        let ghost done = logs_among(part.take(i as int));
        assert(part.take(i + 1).drop_last() =~= part.take(i as int));
        assert(part.take(i + 1).last() == part[i as int]);
        let name: &str = list[i].0.as_str();
        assert(name.spec_bytes() == crate::littlefs::names::base_of(part[i as int].name));
        if files.len() < COLLECT_CAP {
            let file: Option<(u64, u32)> = match logfile_core::parse_segment_name(name) {
                Some(file) => Some(file),
                None => logfile_core::parse_legacy_slot_name(name),
            };
            if let Some(file) = file {
                files.push(file);
                names.push(list[i].0.clone());
                assert(files@ =~= numbers(done.push(part[i as int])));
            }
        }
        i += 1;
    }
    let r = LogFiles { names, files };
    proof {
        let shown = logs_among(part);
        assert(part.take(i as int) =~= part);
        assert(r.shows(shown));
        if fs.dev().faults() == faults {
            assert(cs.take(cs.len() as int) =~= cs);
            if k == 0 {
                assert(part =~= Seq::<Entry>::empty());
            }
        }
        assert(looked(*old(fs), *fs, shown));
    }
    r
}

/// Bytes below 128 are UTF-8.
proof fn lemma_ascii_is_utf8(b: Seq<u8>)
    requires
        forall|i: int| 0 <= i < b.len() ==> #[trigger] b[i] < 128,
    ensures
        vstd::utf8::valid_utf8(b),
{
    let chars = Seq::new(b.len(), |i: int| b[i] as char);
    assert forall|i: int| 0 <= i < chars.len() implies '\0' <= #[trigger] chars[i] <= '\u{7f}' by {
        assert(b[i] < 128);
    }
    vstd::utf8::is_ascii_chars_encode_utf8(chars);
    vstd::utf8::encode_utf8_valid_utf8(chars);
    assert forall|i: int| 0 <= i < b.len() implies #[trigger] b[i] == vstd::utf8::encode_utf8(
        chars,
    )[i] by {
        assert(chars[i] as u8 == vstd::utf8::encode_utf8(chars)[i]);
    }
    assert(vstd::utf8::encode_utf8(chars) =~= b);
}

/// The path of a file in the directory.
fn slot_path(name: &[u8]) -> (r: String)
    requires
        vstd::utf8::valid_utf8(name@),
    ensures
        vstd::utf8::encode_utf8(r@) == path_to(name@),
{
    let mut path: Vec<u8> = vec![0x6c, 0x6f, 0x67, 0x2f];
    proof {
        lemma_ascii_is_utf8(path@);
        vstd::utf8::valid_utf8_concat(path@, name@);
    }
    crate::text::push_bytes(&mut path, name);
    assert(path@ =~= path_to(name@));
    crate::littlefs::names::text(path).unwrap()
}

/// The path of the file of a segment.
fn segment_path(boot_no: u64, segment: u32) -> (r: String)
    ensures
        vstd::utf8::encode_utf8(r@) == slot_of(boot_no, segment),
{
    let mut buffer: [u8; 40] = [0u8; 40];
    let name: &[u8] = logfile_core::segment_name(boot_no, segment, &mut buffer);
    proof {
        logfile_core::lemma_name_is_ascii(boot_no, segment);
        lemma_ascii_is_utf8(name@);
    }
    slot_path(name)
}

/// The oldest log file was removed, or there was none.
pub open spec fn freed<D: BlockDevice>(
    before: FileSystem<D>,
    after: FileSystem<D>,
    files: Seq<Entry>,
    r: Result<(), Error<D::Error>>,
) -> bool {
    if files.len() == 0 {
        after == before && r is Err && r->Err_0 is NotFound
    } else {
        exists|i: int|
            {
                &&& #[trigger] is_oldest(files, i)
                &&& after.mutated(
                    before,
                    Edit::Remove { name: files[i].name },
                    crate::littlefs::fs::remove_refusal(before.entries(), files[i].name),
                    r,
                )
            }
    }
}

/// What removing the oldest log file leaves alone.
proof fn lemma_freed<D: BlockDevice>(
    before: FileSystem<D>,
    after: FileSystem<D>,
    files: Seq<Entry>,
    whole: bool,
    r: Result<(), Error<D::Error>>,
)
    requires
        before.inv(),
        found_logs(before.entries(), files, whole),
        freed(before, after, files, r),
    ensures
        after.inv(),
        others_kept(before.entries(), after.entries()),
        only_removed(before.entries(), after.entries()),
        r is Ok ==> after.entries().len() < before.entries().len(),
        after.dev().faults() >= before.dev().faults(),
{
    if files.len() > 0 {
        let i = choose|i: int|
            {
                &&& #[trigger] is_oldest(files, i)
                &&& after.mutated(
                    before,
                    Edit::Remove { name: files[i].name },
                    crate::littlefs::fs::remove_refusal(before.entries(), files[i].name),
                    r,
                )
            };
        lemma_log(before.entries(), files, whole, i);
        if r is Ok {
            crate::littlefs::fs::law_remove_then_gone(before, after, files[i].name, r);
        }
    }
}

/// Nothing was added or altered.
pub open spec fn only_removed(before: Seq<Entry>, after: Seq<Entry>) -> bool {
    forall|name: Seq<u8>|
        (#[trigger] crate::littlefs::tree::lookup(after, name)) is Some
            ==> crate::littlefs::tree::lookup(after, name) == crate::littlefs::tree::lookup(
            before,
            name,
        )
}

/// Remove the oldest of the log files that were listed.
fn remove_oldest<D: BlockDevice>(fs: &mut FileSystem<D>, listed: &LogFiles, Ghost(es): Ghost<
    Seq<Entry>,
>) -> (r: Result<(), Error<D::Error>>)
    requires
        old(fs).inv(),
        listed.shows(es),
        forall|i: int|
            0 <= i < es.len() ==> (#[trigger] es[i]).name == path_to(
                crate::littlefs::names::base_of(es[i].name),
            ),
    ensures
        freed(*old(fs), *final(fs), es, r),
{
    let ghost nums = numbers(es);
    proof {
        lemma_oldest_is_there(nums);
    }
    match logfile_core::oldest_file(listed.files.as_slice()) {
        None => Err(Error::NotFound),
        Some(oldest) => {
            let i: usize = find_file(&listed.files, oldest);
            let name: &str = listed.names[i].as_str();
            proof {
                vstd::utf8::encode_utf8_valid_utf8(listed.names@[i as int]@);
                assert(nums[i as int] == number_of(es[i as int]));
                assert(is_oldest(es, i as int));
            }
            let path: String = slot_path(name.as_bytes());
            fs.remove(path.as_str())
        },
    }
}

/// Remove the oldest log file.
pub fn free_oldest<D: BlockDevice>(fs: &mut FileSystem<D>) -> (r: Result<(), Error<D::Error>>)
    requires
        old(fs).inv(),
    ensures
        exists|mid: FileSystem<D>, files: Seq<Entry>| #[trigger]
            freed(mid, *final(fs), files, r) && looked(*old(fs), mid, files),
        final(fs).inv(),
        others_kept(old(fs).entries(), final(fs).entries()),
        only_removed(old(fs).entries(), final(fs).entries()),
        final(fs).dev().faults() >= old(fs).dev().faults(),
{
    let ghost before = *fs;
    let listed: LogFiles = collect_log_files(fs);
    let ghost mid = *fs;
    let ghost whole = mid.dev().faults() == before.dev().faults();
    let ghost es = choose|files: Seq<Entry>| #[trigger]
        listed.shows(files) && looked(before, mid, files);
    proof {
        assert(mid.entries() == before.entries());
        assert forall|i: int| 0 <= i < es.len() implies (#[trigger] es[i]).name == path_to(
            crate::littlefs::names::base_of(es[i].name),
        ) by {
            lemma_log(before.entries(), es, whole, i);
        }
    }
    let r: Result<(), Error<D::Error>> = remove_oldest(fs, &listed, Ghost(es));
    proof {
        assert(mid.only_read(before));
        lemma_freed(mid, *fs, es, whole, r);
    }
    r
}

/// `n` log files were removed one after the other, each the oldest of those found, while
/// at least `slots` were found.
pub open spec fn reduced<D: BlockDevice>(
    before: FileSystem<D>,
    after: FileSystem<D>,
    slots: int,
    n: nat,
) -> bool
    decreases n,
{
    if n == 0 {
        after.only_read(before)
    } else {
        exists|last: FileSystem<D>, listed: FileSystem<D>, files: Seq<Entry>|
            {
                &&& reduced(before, last, slots, (n - 1) as nat)
                &&& #[trigger] looked(last, listed, files)
                &&& files.len() >= slots
                &&& #[trigger] freed(listed, after, files, Ok(()))
            }
    }
}

/// What making room for the file of a segment does: with the file there already nothing,
/// and otherwise the oldest log files are removed until fewer than `slots` are found, or
/// one cannot be removed. A file that the device fails to find counts as not there.
pub open spec fn roomed<D: BlockDevice>(
    before: FileSystem<D>,
    after: FileSystem<D>,
    path: Seq<u8>,
    slots: int,
    r: Result<(), Error<D::Error>>,
) -> bool {
    let there = crate::littlefs::tree::lookup(before.entries(), path) is Some
        && crate::littlefs::names::valid_name(path);
    ||| r is Ok && there && after.only_read(before) && after.dev().faults() == before.dev().faults()
    ||| (after.dev().faults() == before.dev().faults() ==> !there) && exists|
        n: nat,
        last: FileSystem<D>,
        listed: FileSystem<D>,
        files: Seq<Entry>,
    |
        {
            &&& #[trigger] reduced(before, last, slots, n)
            &&& #[trigger] looked(last, listed, files)
            &&& match r {
                Ok(_) => after == listed && (files.len() < slots || files.len() == 0),
                Err(error) => files.len() >= slots && files.len() > 0 && freed(
                    listed,
                    after,
                    files,
                    Err(error),
                ),
            }
        }
}

/// What making room for the file of a segment does, and what it leaves alone.
#[verifier::opaque]
pub open spec fn budgeted<D: BlockDevice>(
    before: FileSystem<D>,
    after: FileSystem<D>,
    path: Seq<u8>,
    slots: int,
    r: Result<(), Error<D::Error>>,
) -> bool {
    &&& others_kept(before.entries(), after.entries())
    &&& only_removed(before.entries(), after.entries())
    &&& after.dev().faults() >= before.dev().faults()
    &&& roomed(before, after, path, slots, r)
}

/// Make room for the file of a segment: unless it is there already, the oldest log
/// files are removed until there are fewer than `slots`.
pub fn enforce_budget<D: BlockDevice>(
    fs: &mut FileSystem<D>,
    boot_no: u64,
    segment: u32,
    slots: usize,
) -> (r: Result<(), Error<D::Error>>)
    requires
        old(fs).inv(),
    ensures
        final(fs).inv(),
        budgeted(*old(fs), *final(fs), slot_of(boot_no, segment), slots as int, r),
        others_kept(old(fs).entries(), final(fs).entries()),
        final(fs).dev().faults() >= old(fs).dev().faults(),
{
    reveal(budgeted);
    let ghost before = *fs;
    let path: String = segment_path(boot_no, segment);
    if fs.stat(path.as_str()).is_ok() {
        return Ok(());
    }
    let ghost mut n: nat = 0;
    assert(reduced(before, *fs, slots as int, 0));
    loop
        invariant
            fs.inv(),
            reduced(before, *fs, slots as int, n),
            others_kept(before.entries(), fs.entries()),
            only_removed(before.entries(), fs.entries()),
            fs.dev().faults() >= before.dev().faults(),
            before == *old(fs),
            fs.dev().faults() == before.dev().faults() ==> !(crate::littlefs::tree::lookup(
                before.entries(),
                slot_of(boot_no, segment),
            ) is Some && crate::littlefs::names::valid_name(slot_of(boot_no, segment))),
        decreases fs.entries().len(),
    {
        let ghost top = *fs;
        let listed: LogFiles = collect_log_files(fs);
        let ghost mid = *fs;
        let ghost whole = mid.dev().faults() == top.dev().faults();
        let ghost es = choose|files: Seq<Entry>| #[trigger]
            listed.shows(files) && looked(top, mid, files);
        proof {
            assert(looked(top, mid, es));
            assert(listed.files@.len() == es.len());
        }
        if listed.files.len() < slots || listed.files.len() == 0 {
            proof {
                reveal(budgeted);
                assert(reduced(before, top, slots as int, n));
            }
            return Ok(());
        }
        proof {
            assert(mid.entries() == top.entries());
            assert forall|i: int| 0 <= i < es.len() implies (#[trigger] es[i]).name == path_to(
                crate::littlefs::names::base_of(es[i].name),
            ) by {
                lemma_log(top.entries(), es, whole, i);
            }
        }
        let removal: Result<(), Error<D::Error>> = remove_oldest(fs, &listed, Ghost(es));
        proof {
            lemma_freed(mid, *fs, es, whole, removal);
        }
        if let Err(error) = removal {
            proof {
                reveal(budgeted);
                assert(reduced(before, top, slots as int, n));
                assert(freed(mid, *fs, es, Err(error)));
            }
            return Err(error);
        }
        proof {
            lemma_unit(removal);
            assert(reduced(before, top, slots as int, n));
            assert(freed(mid, *fs, es, Ok(())));
            assert(reduced(before, *fs, slots as int, n + 1));
            n = n + 1;
        }
    }
}

/// The directory is there: `seen` is the file system after it was looked for.
pub open spec fn dir_ready<D: BlockDevice>(
    before: FileSystem<D>,
    seen: FileSystem<D>,
    ready: FileSystem<D>,
) -> bool {
    &&& seen.only_read(before)
    &&& ({
        ||| ready == seen && (seen.dev().faults() == before.dev().faults()
            ==> crate::littlefs::tree::lookup(before.entries(), log_dir()) is Some)
        ||| (seen.dev().faults() == before.dev().faults() ==> crate::littlefs::tree::lookup(
            before.entries(),
            log_dir(),
        ) is None) && exists|made: Result<(), Error<D::Error>>|
            made is Ok && #[trigger] ready.mutated(
                seen,
                Edit::Mkdir { name: log_dir() },
                crate::littlefs::fs::mkdir_refusal(seen.entries(), log_dir()),
                made,
            )
    })
}

/// A file was written to the directory: it is made if it is not there, and the file
/// gets its new contents, as a whole or not at all.
pub open spec fn written<D: BlockDevice>(
    before: FileSystem<D>,
    after: FileSystem<D>,
    path: Seq<u8>,
    data: Seq<u8>,
    r: Result<(), Error<D::Error>>,
) -> bool {
    ||| exists|seen: FileSystem<D>, ready: FileSystem<D>|
        {
            &&& #[trigger] dir_ready(before, seen, ready)
            &&& after.mutated(
                ready,
                Edit::Write { name: path, data },
                crate::littlefs::fs::write_refusal(ready.entries(), path, data.len() as int),
                r,
            )
        }
    ||| r is Err && exists|seen: FileSystem<D>|
        {
            &&& #[trigger] seen.only_read(before)
            &&& after.mutated(
                seen,
                Edit::Mkdir { name: log_dir() },
                crate::littlefs::fs::mkdir_refusal(seen.entries(), log_dir()),
                r,
            )
        }
}

/// Write the file of a segment.
pub fn write_segment<D: BlockDevice>(
    fs: &mut FileSystem<D>,
    boot_no: u64,
    segment: u32,
    image: &[u8],
) -> (r: Result<(), Error<D::Error>>)
    requires
        old(fs).inv(),
    ensures
        final(fs).inv(),
        written(*old(fs), *final(fs), slot_of(boot_no, segment), image@, r),
        final(fs).dev().faults() >= old(fs).dev().faults(),
        others_kept(old(fs).entries(), final(fs).entries()),
        r is Ok ==> crate::littlefs::tree::lookup(final(fs).entries(), slot_of(boot_no, segment))
            == Some(
            Entry { name: slot_of(boot_no, segment), directory: false, data: image@ },
        ),
{
    let ghost before = *fs;
    proof {
        lemma_log_dir();
    }
    let found: bool = fs.stat("log").is_ok();
    let ghost seen = *fs;
    if !found {
        let made: Result<(), Error<D::Error>> = fs.mkdir("log");
        match made {
            Ok(_) => {
                proof {
                    crate::littlefs::fs::law_mkdir_then_there(seen, *fs, "log", made);
                }
            },
            Err(error) => {
                assert(seen.only_read(before));
                return Err(error);
            },
        }
    }
    let ghost ready = *fs;
    assert(dir_ready(before, seen, ready));
    assert(others_kept(before.entries(), ready.entries()));
    let path: String = segment_path(boot_no, segment);
    let name: &str = path.as_str();
    let r: Result<(), Error<D::Error>> = fs.write(name, image);
    proof {
        assert(name.spec_bytes() == slot_of(boot_no, segment));
        assert(in_logs(slot_of(boot_no, segment))) by {
            let p = slot_of(boot_no, segment);
            assert(p.take(3) =~= log_dir());
        }
        if r is Ok {
            crate::littlefs::fs::law_write_then_read(ready, *fs, name, image@, r);
        }
    }
    r
}

/// Why a segment could not be saved.
#[derive(Clone, Copy, PartialEq, Eq, Debug, Structural)]
pub enum Trouble {
    /// No log file could be removed.
    NoRoom,
    /// The file could not be written.
    Device,
    /// There is not enough space.
    NoSpace,
    /// Something of the same name is in the way.
    AlreadyExists,
    /// Something is missing.
    NotFound,
    /// A directory is in the way.
    IsDirectory,
    /// Anything else.
    Other,
}

/// What an error of the file system comes to.
pub open spec fn trouble_of<E>(error: Error<E>) -> Trouble {
    match error {
        Error::Device(_) => Trouble::Device,
        Error::NoSpace => Trouble::NoSpace,
        Error::AlreadyExists => Trouble::AlreadyExists,
        Error::NotFound => Trouble::NotFound,
        Error::IsDirectory => Trouble::IsDirectory,
        _ => Trouble::Other,
    }
}

fn trouble<E>(error: &Error<E>) -> (r: Trouble)
    ensures
        r == trouble_of(*error),
{
    match error {
        Error::Device(_) => Trouble::Device,
        Error::NoSpace => Trouble::NoSpace,
        Error::AlreadyExists => Trouble::AlreadyExists,
        Error::NotFound => Trouble::NotFound,
        Error::IsDirectory => Trouble::IsDirectory,
        _ => Trouble::Other,
    }
}

impl Trouble {
    /// What is shown of it.
    pub fn message(self) -> (r: &'static str)
        ensures
            r.spec_bytes() == (match self {
                Trouble::NoRoom => "logfile: 无法释放日志文件".spec_bytes(),
                Trouble::Device => "logfile: 日志落盘失败: Flash 设备错误".spec_bytes(),
                Trouble::NoSpace => "logfile: 日志落盘失败: 文件系统空间不足".spec_bytes(),
                Trouble::AlreadyExists => "logfile: 日志落盘失败: 目标已存在".spec_bytes(),
                Trouble::NotFound => "logfile: 日志落盘失败: 未找到".spec_bytes(),
                Trouble::IsDirectory => "logfile: 日志落盘失败: 目标是目录".spec_bytes(),
                Trouble::Other => "logfile: 日志落盘失败: 其他文件系统错误".spec_bytes(),
            }),
    {
        match self {
            Trouble::NoRoom => "logfile: 无法释放日志文件",
            Trouble::Device => "logfile: 日志落盘失败: Flash 设备错误",
            Trouble::NoSpace => "logfile: 日志落盘失败: 文件系统空间不足",
            Trouble::AlreadyExists => "logfile: 日志落盘失败: 目标已存在",
            Trouble::NotFound => "logfile: 日志落盘失败: 未找到",
            Trouble::IsDirectory => "logfile: 日志落盘失败: 目标是目录",
            Trouble::Other => "logfile: 日志落盘失败: 其他文件系统错误",
        }
    }
}

/// A segment was saved: at once, or after the oldest log file was removed.
#[verifier::opaque]
pub open spec fn saved<D: BlockDevice>(
    before: FileSystem<D>,
    after: FileSystem<D>,
    path: Seq<u8>,
    data: Seq<u8>,
    r: Result<(), Trouble>,
) -> bool {
    ||| r is Ok && exists|first: Result<(), Error<D::Error>>|
        first is Ok && #[trigger] written(before, after, path, data, first)
    ||| exists|tried: FileSystem<D>, error: Error<D::Error>| #[trigger]
        written(before, tried, path, data, Err(error)) && retried(tried, after, path, data, r)
}

/// The oldest log file was removed, and the segment written then.
pub open spec fn retried<D: BlockDevice>(
    tried: FileSystem<D>,
    after: FileSystem<D>,
    path: Seq<u8>,
    data: Seq<u8>,
    r: Result<(), Trouble>,
) -> bool {
    exists|
        mid: FileSystem<D>,
        cleared: FileSystem<D>,
        files: Seq<Entry>,
        freeing: Result<(), Error<D::Error>>,
    |
        {
            &&& looked(tried, mid, files)
            &&& #[trigger] freed(mid, cleared, files, freeing)
            &&& match freeing {
                Err(_) => after == cleared && r is Err && r->Err_0 == Trouble::NoRoom,
                Ok(_) => exists|second: Result<(), Error<D::Error>>|
                    {
                        &&& #[trigger] written(cleared, after, path, data, second)
                        &&& match second {
                            Ok(_) => r is Ok,
                            Err(error) => r is Err && r->Err_0 == trouble_of(error),
                        }
                    },
            }
        }
}

/// Save a segment; if that fails, once more after the oldest log file was removed.
pub fn write_segment_retry<D: BlockDevice>(
    fs: &mut FileSystem<D>,
    boot_no: u64,
    segment: u32,
    image: &[u8],
) -> (r: Result<(), Trouble>)
    requires
        old(fs).inv(),
    ensures
        final(fs).inv(),
        saved(*old(fs), *final(fs), slot_of(boot_no, segment), image@, r),
        final(fs).dev().faults() >= old(fs).dev().faults(),
        others_kept(old(fs).entries(), final(fs).entries()),
        r is Ok ==> crate::littlefs::tree::lookup(final(fs).entries(), slot_of(boot_no, segment))
            == Some(
            Entry { name: slot_of(boot_no, segment), directory: false, data: image@ },
        ),
{
    reveal(saved);
    let ghost before = *fs;
    let ghost path = slot_of(boot_no, segment);
    let first: Result<(), Error<D::Error>> = write_segment(fs, boot_no, segment, image);
    let ghost tried = *fs;
    match first {
        Ok(_) => {
            assert(written(before, tried, path, image@, first));
            return Ok(());
        },
        Err(error) => {
            assert(written(before, tried, path, image@, Err(error)));
        },
    }
    let freeing: Result<(), Error<D::Error>> = free_oldest(fs);
    let ghost cleared = *fs;
    let ghost (mid, files) = choose|mid: FileSystem<D>, files: Seq<Entry>| #[trigger]
        freed(mid, cleared, files, freeing) && looked(tried, mid, files);
    assert(freed(mid, cleared, files, freeing));
    if freeing.is_err() {
        let r: Result<(), Trouble> = Err(Trouble::NoRoom);
        assert(retried(tried, *fs, path, image@, r));
        return r;
    }
    let second: Result<(), Error<D::Error>> = write_segment(fs, boot_no, segment, image);
    match second {
        Ok(_) => {
            assert(written(cleared, *fs, path, image@, second));
            let r: Result<(), Trouble> = Ok(());
            assert(retried(tried, *fs, path, image@, r));
            r
        },
        Err(error) => {
            let kind: Trouble = trouble(&error);
            assert(written(cleared, *fs, path, image@, Err(error)));
            assert(retried(tried, *fs, path, image@, Err::<(), Trouble>(kind)));
            Err(kind)
        },
    }
}

// ---------------------------------------------------------------------------
// From the buffer to the files
// ---------------------------------------------------------------------------

/// What is still to be saved: the entries in the buffer, the number of those that were
/// lost, whether one is being written, and the segment with its image.
pub struct Flow {
    pub items: Seq<Item>,
    pub losses: int,
    pub busy: bool,
    pub segment: int,
    pub image: Seq<u8>,
}

/// How a segment was filled.
pub enum Filled {
    /// Nothing is left in the buffer.
    Done,
    /// Nothing can be taken from the buffer now.
    Held,
    /// The next entry goes to a new segment.
    Full,
}

/// The image of a segment once it is begun.
pub open spec fn opened(f: Flow, marker: Seq<u8>) -> Seq<u8> {
    if f.image.len() == 0 {
        marker
    } else {
        f.image
    }
}

/// A segment is filled with as many entries as fit into `max` bytes. If there are none
/// although the segment holds no other entry, the next one has it for itself.
pub open spec fn fill(f: Flow, max: int, marker: Seq<u8>) -> (Flow, Filled) {
    let start = opened(f, marker);
    let free = if max > start.len() {
        max - start.len()
    } else {
        0
    };
    let note = crate::logring::drop_marker(f.losses);
    let n = if note.len() <= free {
        crate::logring::fitting(f.items, free - note.len())
    } else {
        0
    };
    let lines = if note.len() <= free {
        note + crate::logring::render_all(f.items.take(n))
    } else {
        Seq::empty()
    };
    let rest = f.items.skip(n);
    let lost = if note.len() <= free {
        0
    } else {
        f.losses
    };
    if f.busy {
        (Flow { image: start, ..f }, Filled::Held)
    } else if f.items.len() == 0 {
        (Flow { image: start, ..f }, Filled::Done)
    } else if lines.len() > 0 {
        (
            Flow { items: rest, losses: lost, image: start + lines, ..f },
            if rest.len() > 0 {
                Filled::Full
            } else {
                Filled::Done
            },
        )
    } else if start.len() > marker.len() {
        (Flow { items: rest, losses: lost, image: start, ..f }, Filled::Full)
    } else {
        let k = if rest.len() > 0 {
            1int
        } else {
            0
        };
        let forced = crate::logring::drop_marker(lost) + crate::logring::render_all(rest.take(k));
        (
            Flow { items: rest.skip(k), losses: 0, image: start + forced, ..f },
            if forced.len() > 0 {
                Filled::Full
            } else {
                Filled::Held
            },
        )
    }
}

/// A new segment is begun.
pub open spec fn rotated(f: Flow) -> Flow {
    Flow { segment: f.segment + 1, image: Seq::empty(), ..f }
}

/// What is left after `k` full segments; nothing if there are not as many.
pub open spec fn after_segments(f: Flow, max: int, marker: Seq<u8>, k: nat) -> Option<Flow>
    decreases k,
{
    if k == 0 {
        Some(f)
    } else {
        match after_segments(f, max, marker, (k - 1) as nat) {
            Some(g) => match fill(g, max, marker) {
                (full, Filled::Full) => Some(rotated(full)),
                _ => None,
            },
            None => None,
        }
    }
}

/// How a flush ended.
#[derive(Clone, Copy, PartialEq, Eq, Debug, Structural)]
pub enum Flush {
    /// There was nothing to do.
    Idle,
    /// Everything was saved.
    Saved,
    /// The buffer could not be emptied.
    Deferred,
    /// A segment could not be saved.
    Failed(Trouble),
}

/// The flow of a buffer and a state.
pub open spec fn flow_of<const CAP: usize>(ring: LogRing<CAP>, state: FlushState) -> Flow {
    Flow {
        items: ring.items(),
        losses: ring.losses(),
        busy: ring.busy(),
        segment: state.part() as int,
        image: state.text(),
    }
}

/// A segment was begun: unless it was begun before, there is room for its file.
pub open spec fn begun<D: BlockDevice>(
    before: FileSystem<D>,
    after: FileSystem<D>,
    f: Flow,
    boot: u64,
    slots: int,
) -> bool {
    if f.image.len() == 0 {
        exists|r: Result<(), Error<D::Error>>| #[trigger]
            budgeted(before, after, slot_of(boot, f.segment as u32), slots, r)
    } else {
        after == before
    }
}

/// How logs are saved.
pub struct Rules {
    /// The longest file.
    pub max: int,
    /// The number of files.
    pub slots: int,
    /// The number of the boot.
    pub boot: u64,
}

impl Rules {
    /// How every file begins.
    pub open spec fn marker(self) -> Seq<u8> {
        logfile_core::marker_of(self.boot)
    }

    /// How a segment is filled.
    pub open spec fn filled(self, f: Flow) -> (Flow, Filled) {
        fill(f, self.max, self.marker())
    }

    /// What is left after `k` full segments.
    pub open spec fn after(self, f: Flow, k: nat) -> Option<Flow> {
        after_segments(f, self.max, self.marker(), k)
    }
}

/// A segment was begun, filled and saved.
pub open spec fn segment_saved<D: BlockDevice>(
    before: FileSystem<D>,
    after: FileSystem<D>,
    f: Flow,
    rules: Rules,
    r: Result<(), Trouble>,
) -> bool {
    exists|ready: FileSystem<D>| #[trigger]
        begun(before, ready, f, rules.boot, rules.slots) && saved(
            ready,
            after,
            slot_of(rules.boot, f.segment as u32),
            rules.filled(f).0.image,
            r,
        )
}

/// The first `k` segments were full, and saved one after the other.
pub open spec fn segments_saved<D: BlockDevice>(
    before: FileSystem<D>,
    after: FileSystem<D>,
    start: Flow,
    rules: Rules,
    k: nat,
) -> bool
    decreases k,
{
    if k == 0 {
        after == before
    } else {
        exists|last: FileSystem<D>| #[trigger]
            segment_saved(last, after, rules.after(start, (k - 1) as nat)->0, rules, Ok(()))
                && segments_saved(before, last, start, rules, (k - 1) as nat)
    }
}

/// A flush came to its end with `end`: some full segments were saved, and then the last
/// one was, or the next could not be.
pub open spec fn flushed<D: BlockDevice>(
    before: FileSystem<D>,
    after: FileSystem<D>,
    start: Flow,
    end: Flow,
    rules: Rules,
    r: Flush,
) -> bool {
    exists|k: nat, last: FileSystem<D>|
        {
            &&& (#[trigger] rules.after(start, k)) is Some
            &&& #[trigger] segments_saved(before, last, start, rules, k)
            &&& ends(last, after, rules.after(start, k)->0, end, rules, r)
        }
}

/// A flush ended with what was left as `f`.
pub open spec fn ends<D: BlockDevice>(
    before: FileSystem<D>,
    after: FileSystem<D>,
    f: Flow,
    end: Flow,
    rules: Rules,
    r: Flush,
) -> bool {
    &&& rules.filled(f).0 == end
    &&& match (rules.filled(f).1, r) {
        (Filled::Done, Flush::Saved) => segment_saved(before, after, f, rules, Ok(())),
        (Filled::Held, Flush::Deferred) => begun(before, after, f, rules.boot, rules.slots),
        (Filled::Done, Flush::Failed(trouble)) => segment_saved(
            before,
            after,
            f,
            rules,
            Err(trouble),
        ),
        (Filled::Full, Flush::Failed(trouble)) => segment_saved(
            before,
            after,
            f,
            rules,
            Err(trouble),
        ),
        _ => false,
    }
}

/// Bytes for the number of the boot.
const MARKER_ROOM: usize = 48;

/// Fill the current segment.
fn fill_segment<const CAP: usize>(
    ring: &mut LogRing<CAP>,
    state: &mut FlushState,
    marker: &[u8],
    max: usize,
) -> (r: Filled)
    requires
        old(ring).inv(),
        old(state).text().len() > 0,
        old(state).text() == opened(flow_of(*old(ring), *old(state)), marker@),
    ensures
        final(ring).inv(),
        (flow_of(*final(ring), *final(state)), r) == fill(
            flow_of(*old(ring), *old(state)),
            max as int,
            marker@,
        ),
        final(state).boot() == old(state).boot(),
        final(state).numbered() == old(state).numbered(),
        final(state).part() == old(state).part(),
{
    let ghost f = flow_of(*ring, *state);
    let ghost start = state.image@;
    let ghost boot = state.boot_no;
    let ghost items = ring.items();
    let free: usize = if max > state.image.len() {
        max - state.image.len()
    } else {
        0
    };
    if ring.is_empty() {
        assert(flow_of(*ring, *state).image =~= start);
        return Filled::Done;
    }
    let ghost note = crate::logring::drop_marker(f.losses);
    proof {
        crate::logring::law_limited_drains_add_up(items, free - note.len());
        assert(items.take(0) =~= Seq::empty());
        assert(items.skip(0) =~= items);
    }
    let drained: usize = ring.drain_into_limited(&mut state.image, free);
    let ghost rest = ring.items();
    if drained > 0 {
        assert(!f.busy);
        assert(state.image@ =~= start + (note + crate::logring::render_all(
            items.take(crate::logring::fitting(items, free - note.len())),
        )));
        if ring.is_empty() {
            Filled::Done
        } else {
            Filled::Full
        }
    } else {
        assert(state.image@ =~= start);
        if ring.is_busy() {
            return Filled::Held;
        }
        if state.image.len() > marker.len() {
            return Filled::Full;
        }
        let ghost lost = ring.losses();
        let forced: usize = ring.drain_oldest_entry(&mut state.image);
        let ghost k = if rest.len() > 0 {
            1int
        } else {
            0
        };
        assert(state.image@ =~= start + (crate::logring::drop_marker(lost)
            + crate::logring::render_all(rest.take(k))));
        if forced > 0 {
            Filled::Full
        } else {
            Filled::Held
        }
    }
}

/// The marker is not too long.
proof fn lemma_marker(boot: u64)
    ensures
        0 < logfile_core::marker_of(boot).len() <= MARKER_ROOM,
{
    reveal_with_fuel(crate::text::pow10, 21);
    crate::text::lemma_decimal_len(boot as int, 20);
    reveal_strlit("\n----- boot #");
    reveal_strlit(" -----\n");
    vstd::string::is_ascii_spec_bytes("\n----- boot #");
    vstd::string::is_ascii_spec_bytes(" -----\n");
}

/// A full segment takes something from the buffer, or leaves the next one empty.
proof fn lemma_progress(f: Flow, max: int, marker: Seq<u8>)
    requires
        fill(f, max, marker).1 is Full,
        f.losses >= 0,
    ensures
        ({
            let g = fill(f, max, marker).0;
            &&& g.items.len() <= f.items.len()
            &&& 0 <= g.losses <= f.losses
            &&& g.items.len() < f.items.len() || (g.losses == 0 && f.losses > 0) || (g.items
                == f.items && g.losses == f.losses && f.image.len() > marker.len())
        }),
{
    let start = opened(f, marker);
    let free = if max > start.len() {
        max - start.len()
    } else {
        0
    };
    let note = crate::logring::drop_marker(f.losses);
    if note.len() <= free {
        let n = crate::logring::fitting(f.items, free - note.len());
        crate::logring::law_limited_drains_add_up(f.items, free - note.len());
        let rest = f.items.skip(n);
        assert(n == 0 ==> rest =~= f.items);
        assert(n == 0 ==> crate::logring::render_all(f.items.take(0)).len() == 0) by {
            assert(f.items.take(0) =~= Seq::empty());
        }
    } else {
        assert(f.items.skip(0) =~= f.items);
    }
}

/// A segment that was begun, filled and written is saved.
proof fn lemma_segment_saved<D: BlockDevice>(
    before: FileSystem<D>,
    ready: FileSystem<D>,
    after: FileSystem<D>,
    f: Flow,
    rules: Rules,
    r: Result<(), Trouble>,
)
    requires
        begun(before, ready, f, rules.boot, rules.slots),
        saved(
            ready,
            after,
            slot_of(rules.boot, f.segment as u32),
            rules.filled(f).0.image,
            r,
        ),
    ensures
        segment_saved(before, after, f, rules, r),
{
}

/// There is one way to succeed.
proof fn lemma_unit<E>(r: Result<(), E>)
    requires
        r is Ok,
    ensures
        r == Ok::<(), E>(()),
{
    match r {
        Ok(u) => {
            assert(u == ());
        },
        Err(_) => {},
    }
}

/// One more segment was saved.
proof fn lemma_segments_saved<D: BlockDevice>(
    before: FileSystem<D>,
    last: FileSystem<D>,
    after: FileSystem<D>,
    start: Flow,
    rules: Rules,
    k: nat,
)
    requires
        segments_saved(before, last, start, rules, k),
        rules.after(start, k) is Some,
        segment_saved(last, after, rules.after(start, k)->0, rules, Ok(())),
    ensures
        segments_saved(before, after, start, rules, k + 1),
{
    assert((k + 1 - 1) as nat == k);
}

/// Save what is in the buffer to the file system.
fn flush<D: BlockDevice, const CAP: usize>(
    fs: &mut FileSystem<D>,
    ring: &mut LogRing<CAP>,
    state: &mut FlushState,
    max: usize,
    slots: usize,
) -> (r: Flush)
    requires
        old(fs).inv(),
        old(ring).inv(),
        old(state).part() + CAP + 2 <= u32::MAX,
    ensures
        final(fs).inv(),
        final(fs).dev().faults() >= old(fs).dev().faults(),
        r != Flush::Idle,
        final(ring).inv(),
        final(state).numbered(),
        final(state).boot() == old(state).boot(),
        others_kept(old(fs).entries(), final(fs).entries()),
        flushed(
            *old(fs),
            *final(fs),
            flow_of(*old(ring), *old(state)),
            flow_of(*final(ring), *final(state)),
            (Rules { max: max as int, slots: slots as int, boot: old(state).boot() }),
            r,
        ),
        r is Saved ==> crate::littlefs::tree::lookup(
            final(fs).entries(),
            slot_of(final(state).boot(), final(state).part()),
        ) == Some(
            Entry {
                name: slot_of(final(state).boot(), final(state).part()),
                directory: false,
                data: final(state).text(),
            },
        ),
{
    let ghost start = flow_of(*ring, *state);
    let ghost es = fs.entries();
    let ghost fs0 = *fs;
    let boot: u64 = state.boot_no;
    let ghost rules = Rules { max: max as int, slots: slots as int, boot };
    let mut buffer: [u8; 48] = [0u8; 48];
    let marker: &[u8] = logfile_core::format_boot_marker(boot, &mut buffer);
    let ghost mark = logfile_core::marker_of(boot);
    let ghost mut k: nat = 0;
    state.scanned = true;
    proof {
        lemma_marker(boot);
        ring.lemma_entries_are_bounded();
    }
    loop
        invariant
            fs.inv(),
            fs.dev().faults() >= old(fs).dev().faults(),
            ring.inv(),
            state.numbered(),
            state.boot() == boot,
            mark == logfile_core::marker_of(boot),
            marker@ == mark,
            0 < mark.len() <= MARKER_ROOM,
            boot == old(state).boot(),
            es == old(fs).entries(),
            start == flow_of(*old(ring), *old(state)),
            others_kept(es, fs.entries()),
            fs0 == *old(fs),
            rules == (Rules { max: max as int, slots: slots as int, boot }),
            segments_saved(fs0, *fs, start, rules, k),
            rules.after(start, k) == Some(flow_of(*ring, *state)),
            state.part() + 2 * ring.items().len() + (if ring.losses() > 0 {
                1int
            } else {
                0
            }) + (if state.text().len() > mark.len() {
                1int
            } else {
                0
            }) <= u32::MAX,
        decreases
                ring.items().len(),
                (if ring.losses() > 0 {
                    1int
                } else {
                    0
                }),
                (if state.text().len() > mark.len() {
                    1int
                } else {
                    0
                }),
    {
        let ghost top = flow_of(*ring, *state);
        let ghost last = *fs;
        proof {
            ring.lemma_entries_are_bounded();
        }
        if state.image.len() == 0 {
            crate::text::push_bytes(&mut state.image, marker);
            assert(state.image@ =~= mark);
            let room = enforce_budget(fs, boot, state.segment, slots);
            assert(budgeted(
                last,
                *fs,
                slot_of(boot, top.segment as u32),
                slots as int,
                room,
            ));
        }
        let ghost ready = *fs;
        assert(begun(last, ready, top, rules.boot, rules.slots));
        let ghost open = flow_of(*ring, *state);
        let filled: Filled = fill_segment(ring, state, marker, max);
        let ghost g = flow_of(*ring, *state);
        proof {
            assert((g, filled) == fill(open, max as int, mark));
            assert(opened(open, mark) == opened(top, mark));
            lemma_same_fill(top, open, max as int, mark);
            assert((g, filled) == rules.filled(top));
        }
        match filled {
            Filled::Held => {
                assert(ends(last, *fs, top, g, rules, Flush::Deferred));
                return Flush::Deferred;
            },
            Filled::Done => {
                let outcome = write_segment_retry(
                    fs,
                    boot,
                    state.segment,
                    state.image.as_slice(),
                );
                proof {
                    lemma_segment_saved(last, ready, *fs, top, rules, outcome);
                }
                match outcome {
                    Ok(_) => {
                        proof {
                            lemma_unit(outcome);
                        }
                        assert(ends(last, *fs, top, g, rules, Flush::Saved));
                        return Flush::Saved;
                    },
                    Err(trouble) => {
                        assert(ends(last, *fs, top, g, rules, Flush::Failed(trouble)));
                        return Flush::Failed(trouble);
                    },
                }
            },
            Filled::Full => {
                let outcome = write_segment_retry(
                    fs,
                    boot,
                    state.segment,
                    state.image.as_slice(),
                );
                proof {
                    lemma_segment_saved(last, ready, *fs, top, rules, outcome);
                }
                match outcome {
                    Ok(_) => {},
                    Err(trouble) => {
                        assert(ends(last, *fs, top, g, rules, Flush::Failed(trouble)));
                        return Flush::Failed(trouble);
                    },
                }
                proof {
                    lemma_unit(outcome);
                    lemma_progress(top, max as int, mark);
                    lemma_segments_saved(fs0, last, *fs, start, rules, k);
                    k = k + 1;
                }
                state.segment = state.segment + 1;
                state.image = Vec::new();
                assert(flow_of(*ring, *state) == rotated(g)) by {
                    assert(state.image@ =~= Seq::<u8>::empty());
                }
            },
        }
    }
}

/// Beginning a segment does not change how it is filled.
proof fn lemma_same_fill(f: Flow, g: Flow, max: int, marker: Seq<u8>)
    requires
        g == (Flow { image: opened(f, marker), ..f }),
        marker.len() > 0,
    ensures
        fill(g, max, marker) == fill(f, max, marker),
{
    assert(opened(g, marker) == opened(f, marker));
}

/// The number of this boot, given the log files that are there.
pub open spec fn boot_after(files: Seq<(u64, u32)>) -> u64 {
    match logfile_core::newest_in(files) {
        Some(n) => if n == u64::MAX {
            1
        } else {
            (n + 1) as u64
        },
        None => 1,
    }
}

/// Save the log, if it is to be saved, a file system is mounted and there is something
/// to save. The first time, the number of the boot is found from the files that are
/// there. Files have at most `max` bytes, and `slots` of them are kept.
pub fn flush_once<D: BlockDevice, const CAP: usize>(
    settings: &Settings,
    slot: &mut Option<FileSystem<D>>,
    ring: &mut LogRing<CAP>,
    state: &mut FlushState,
    max: usize,
    slots: usize,
) -> (r: Flush)
    requires
        *old(slot) matches Some(fs) ==> fs.inv(),
        old(ring).inv(),
        old(state).part() + CAP + 2 <= u32::MAX,
    ensures
        final(ring).inv(),
        *final(slot) is Some <==> *old(slot) is Some,
        if !settings.saves() || *old(slot) is None || (old(ring).items().len() == 0 && !old(ring).busy()) {
            &&& r == Flush::Idle
            &&& *final(slot) == *old(slot)
            &&& *final(ring) == *old(ring)
            &&& *final(state) == *old(state)
        } else {
            let before = (*old(slot))->0;
            let after = (*final(slot))->0;
            let start = flow_of(*old(ring), *old(state));
            &&& r != Flush::Idle
            &&& after.inv()
            &&& others_kept(before.entries(), after.entries())
            &&& final(state).numbered()
            &&& if old(state).numbered() {
                final(state).boot() == old(state).boot()
            } else {
                exists|seen: FileSystem<D>, files: Seq<Entry>| #[trigger]
                    looked(before, seen, files) && seen.dev().faults() <= after.dev().faults()
                        && final(state).boot() == boot_after(numbers(files))
            }
            &&& exists|seen: FileSystem<D>| #[trigger]
                seen.only_read(before) && (old(state).numbered() ==> seen == before) && flushed(
                    seen,
                    after,
                    if old(state).numbered() {
                        start
                    } else {
                        Flow { segment: 0, ..start }
                    },
                    flow_of(*final(ring), *final(state)),
                    Rules { max: max as int, slots: slots as int, boot: final(state).boot() },
                    r,
                )
            &&& r is Saved ==> crate::littlefs::tree::lookup(
                after.entries(),
                slot_of(final(state).boot(), final(state).part()),
            ) == Some(
                Entry {
                    name: slot_of(final(state).boot(), final(state).part()),
                    directory: false,
                    data: final(state).text(),
                },
            )
        },
{
    if !log::file_enabled(settings) || ring.is_empty() {
        return Flush::Idle;
    }
    match filesystem::mounted(slot) {
        None => Flush::Idle,
        Some(fs) => {
            let ghost before = *fs;
            if !state.scanned {
                let listed: LogFiles = collect_log_files(fs);
                proof {
                    let files = choose|files: Seq<Entry>| #[trigger]
                        listed.shows(files) && looked(before, *fs, files);
                    assert(looked(before, *fs, files));
                    assert(listed.files@ == numbers(files));
                }
                state.boot_no = logfile_core::next_boot(
                    logfile_core::newest_boot(listed.files.as_slice()),
                );
                state.segment = 0;
                state.scanned = true;
            }
            assert(fs.only_read(before));
            flush(fs, ring, state, max, slots)
        },
    }
}

/// Save the log now, before a reset.
pub fn flush_now<D: BlockDevice, const CAP: usize>(
    settings: &Settings,
    slot: &mut Option<FileSystem<D>>,
    ring: &mut LogRing<CAP>,
    state: &mut FlushState,
    max: usize,
    slots: usize,
) -> (r: Flush)
    requires
        *old(slot) matches Some(fs) ==> fs.inv(),
        old(ring).inv(),
        old(state).part() + CAP + 2 <= u32::MAX,
    ensures
        final(ring).inv(),
        *final(slot) is Some <==> *old(slot) is Some,
        (r == Flush::Idle) == (!settings.saves() || *old(slot) is None || (old(ring).items().len()
            == 0 && !old(ring).busy())),
        r == Flush::Idle ==> *final(slot) == *old(slot) && *final(ring) == *old(ring) && *final(state) == *old(state),
        r != Flush::Idle ==> {
            &&& (*final(slot))->0.inv()
            &&& others_kept((*old(slot))->0.entries(), (*final(slot))->0.entries())
            &&& final(state).numbered()
            &&& if old(state).numbered() {
                final(state).boot() == old(state).boot()
            } else {
                exists|seen: FileSystem<D>, files: Seq<Entry>| #[trigger]
                    looked((*old(slot))->0, seen, files) && seen.dev().faults()
                        <= (*final(slot))->0.dev().faults() && final(state).boot() == boot_after(numbers(files))
            }
            &&& exists|seen: FileSystem<D>| #[trigger]
                seen.only_read((*old(slot))->0) && (old(state).numbered() ==> seen == (*old(
                    slot,
                ))->0) && flushed(
                    seen,
                    (*final(slot))->0,
                    if old(state).numbered() {
                        flow_of(*old(ring), *old(state))
                    } else {
                        Flow { segment: 0, ..flow_of(*old(ring), *old(state)) }
                    },
                    flow_of(*final(ring), *final(state)),
                    Rules { max: max as int, slots: slots as int, boot: final(state).boot() },
                    r,
                )
        },
        r is Saved ==> crate::littlefs::tree::lookup(
            (*final(slot))->0.entries(),
            slot_of(final(state).boot(), final(state).part()),
        ) == Some(
            Entry {
                name: slot_of(final(state).boot(), final(state).part()),
                directory: false,
                data: final(state).text(),
            },
        ),
{
    flush_once(settings, slot, ring, state, max, slots)
}

/// No file is longer than the limit, but for one that holds a single entry (with the
/// number of those that were lost before it) behind the number of the boot.
pub proof fn law_files_keep_to_their_limit(f: Flow, max: int, marker: Seq<u8>)
    requires
        f.image.len() <= max,
        marker.len() <= max,
        f.losses >= 0,
    ensures
        ({
            let g = fill(f, max, marker).0;
            ||| g.image.len() <= max
            ||| exists|lost: int, only: Item|
                g.image == #[trigger] (opened(f, marker) + crate::logring::drop_marker(lost)
                    + crate::logring::render(only)) && opened(f, marker).len() <= marker.len()
        }),
{
    let start = opened(f, marker);
    let free = max - start.len();
    let note = crate::logring::drop_marker(f.losses);
    let n = if note.len() <= free {
        crate::logring::fitting(f.items, free - note.len())
    } else {
        0
    };
    crate::logring::law_limited_drains_add_up(f.items, free - note.len());
    let rest = f.items.skip(n);
    let lost = if note.len() <= free {
        0
    } else {
        f.losses
    };
    let g = fill(f, max, marker).0;
    if g.image.len() > max {
        assert(rest.len() > 0) by {
            if rest.len() == 0 {
                assert(rest.take(0) =~= Seq::empty());
            }
        }
        assert(rest.take(1).drop_last() =~= Seq::empty());
        reveal_with_fuel(crate::logring::render_all, 3);
        assert(crate::logring::render_all(rest.take(1)) =~= crate::logring::render(rest[0]));
        assert(g.image =~= start + crate::logring::drop_marker(lost) + crate::logring::render(
            rest[0],
        ));
    }
}

/// Nothing is lost on the way to the files: what leaves the buffer is added to the
/// image, in its order.
pub proof fn law_entries_move_to_the_image(f: Flow, max: int, marker: Seq<u8>)
    requires
        f.losses >= 0,
    ensures
        moved(f, fill(f, max, marker).0, marker),
{
    let start = opened(f, marker);
    let free = if max > start.len() {
        max - start.len()
    } else {
        0
    };
    let note = crate::logring::drop_marker(f.losses);
    let n = if note.len() <= free {
        crate::logring::fitting(f.items, free - note.len())
    } else {
        0
    };
    crate::logring::law_limited_drains_add_up(f.items, free - note.len());
    assert(f.items.skip(0) =~= f.items);
    let lines = crate::logring::render_all(f.items.take(n));
    if f.busy || f.items.len() == 0 {
        lemma_taken(f.items, 0);
        assert(start =~= start + Seq::<u8>::empty() + crate::logring::render_all(
            f.items.take(0),
        ));
    } else if note.len() <= free && (note + lines).len() > 0 {
        lemma_noted(f.losses);
        assert(start + (note + lines) =~= start + note + lines);
    } else {
        if note.len() <= free {
            lemma_noted(f.losses);
            assert(lines =~= Seq::<u8>::empty());
        }
        lemma_taken(f.items, n);
        let rest = f.items.skip(n);
        if start.len() > marker.len() {
            assert(start =~= start + Seq::<u8>::empty() + lines);
        } else {
            lemma_forced(f, n, start, note.len() <= free);
        }
    }
}

/// What left the buffer is behind what was in the image, and so is the number of
/// entries that were lost, where it was reset.
pub open spec fn moved(f: Flow, g: Flow, marker: Seq<u8>) -> bool {
    let n = f.items.len() - g.items.len();
    &&& 0 <= n <= f.items.len()
    &&& g.items == f.items.skip(n)
    &&& g.losses == f.losses || g.losses == 0
    &&& g.image == opened(f, marker) + (if g.losses == f.losses {
        Seq::empty()
    } else {
        crate::logring::drop_marker(f.losses)
    }) + crate::logring::render_all(f.items.take(n))
}

/// Losses are noted exactly if there are any.
proof fn lemma_noted(losses: int)
    requires
        losses >= 0,
    ensures
        losses == 0 ==> crate::logring::drop_marker(losses) == Seq::<u8>::empty(),
        losses > 0 ==> crate::logring::drop_marker(losses).len() > 0,
{
    if losses > 0 {
        lemma_decimal_is_not_empty(losses);
    }
}

proof fn lemma_decimal_is_not_empty(n: int)
    ensures
        crate::text::decimal(n).len() > 0,
{
}

/// One more entry adds its line.
proof fn lemma_taken(items: Seq<Item>, n: int)
    requires
        0 <= n <= items.len(),
    ensures
        n == 0 ==> crate::logring::render_all(items.take(n)) == Seq::<u8>::empty(),
        n < items.len() ==> crate::logring::render_all(items.take(n + 1))
            == crate::logring::render_all(items.take(n)) + crate::logring::render(items[n]),
        n < items.len() ==> crate::logring::render_all(items.skip(n).take(1))
            == crate::logring::render(items[n]),
        items.skip(n).take(0) == Seq::<Item>::empty(),
        n < items.len() ==> items.skip(n).skip(1) == items.skip(n + 1),
        items.skip(n).skip(0) == items.skip(n),
{
    assert(items.take(0) =~= Seq::empty());
    assert(items.skip(n).take(0) =~= Seq::empty());
    assert(items.skip(n).skip(0) =~= items.skip(n));
    if n < items.len() {
        assert(items.take(n + 1).drop_last() =~= items.take(n));
        let one = items.skip(n).take(1);
        assert(one.drop_last() =~= Seq::empty());
        reveal_with_fuel(crate::logring::render_all, 2);
        assert(crate::logring::render_all(one) =~= crate::logring::render(items[n]));
        assert(items.skip(n).skip(1) =~= items.skip(n + 1));
    }
}

/// An entry that has a segment for itself moves to it.
proof fn lemma_forced(f: Flow, n: int, start: Seq<u8>, noted: bool)
    requires
        f.losses >= 0,
        0 <= n <= f.items.len(),
        noted ==> f.losses == 0 && crate::logring::render_all(f.items.take(n)) == Seq::<
            u8,
        >::empty(),
        !noted ==> n == 0,
    ensures
        ({
            let rest = f.items.skip(n);
            let k = if rest.len() > 0 {
                1int
            } else {
                0
            };
            let lost = if noted {
                0
            } else {
                f.losses
            };
            let image = start + (crate::logring::drop_marker(lost) + crate::logring::render_all(
                rest.take(k),
            ));
            &&& rest.skip(k) == f.items.skip(n + k)
            &&& image == start + (if f.losses == 0 {
                Seq::empty()
            } else {
                crate::logring::drop_marker(f.losses)
            }) + crate::logring::render_all(f.items.take(n + k))
        }),
{
    lemma_taken(f.items, n);
    lemma_noted(f.losses);
    let rest = f.items.skip(n);
    if rest.len() > 0 {
        assert(crate::logring::render_all(f.items.take(n + 1)) =~= crate::logring::render(
            f.items[n],
        ));
        assert(start + (crate::logring::drop_marker(f.losses) + crate::logring::render(f.items[n]))
            =~= start + crate::logring::drop_marker(f.losses) + crate::logring::render(
            f.items[n],
        ));
    } else {
        assert(rest.take(0) =~= Seq::empty());
        assert(start + (crate::logring::drop_marker(f.losses) + Seq::<u8>::empty()) =~= start
            + crate::logring::drop_marker(f.losses) + Seq::<u8>::empty());
    }
}

} // verus!
