//! What a snapshot means: its entries, the bytes they are stored as, and what
//! each change makes of them.

use vstd::prelude::*;

use super::format::{RecordHeader, crc_of, pad4, record_len_of, law_record_decoded_is_image, law_record_header_round_trip};
use super::names::{descendant, lemma_descendant_has_parent, lemma_moved_injective, lemma_moved_parent, lemma_moved_ok, lemma_parent, moved, parent_of, path_ok, within};

verus! {

/// One file or directory of a snapshot.
#[verifier::ext_equal]
pub struct Entry {
    /// Canonical root-relative path.
    pub name: Seq<u8>,
    pub directory: bool,
    /// Contents of a file; empty for a directory.
    pub data: Seq<u8>,
}

/// The entry can be stored.
pub open spec fn entry_ok(e: Entry) -> bool {
    &&& path_ok(e.name)
    &&& 1 <= e.name.len() <= 63
    &&& e.directory ==> e.data.len() == 0
    &&& 20 + e.name.len() + e.data.len() + 3 <= u32::MAX
}

/// The record header of an entry.
pub open spec fn entry_header(e: Entry) -> RecordHeader {
    RecordHeader {
        record_len: record_len_of(e.name.len() as int, e.data.len() as int) as u32,
        data_len: e.data.len() as u32,
        data_crc: crc_of(e.data),
        name_len: e.name.len() as u16,
        flags: if e.directory {
            1
        } else {
            0
        },
    }
}

/// `n` zero bytes.
pub open spec fn zeros(n: int) -> Seq<u8> {
    Seq::new(n as nat, |i: int| 0u8)
}

/// Number of bytes an entry takes on the medium.
pub open spec fn entry_len(e: Entry) -> int {
    record_len_of(e.name.len() as int, e.data.len() as int)
}

/// Offset of the data in a record.
pub open spec fn name_end(e: Entry) -> int {
    20 + e.name.len() as int
}

/// Offset of the padding in a record.
pub open spec fn data_end(e: Entry) -> int {
    20 + e.name.len() as int + e.data.len() as int
}

/// The record of an entry: header, name, data, and zeros up to the next word.
#[verifier::opaque]
pub open spec fn record_bytes(e: Entry) -> Seq<u8> {
    entry_header(e).image() + e.name + e.data + zeros(
        entry_len(e) - data_end(e),
    )
}

/// The records of all entries, one after the other.
pub open spec fn serialize(es: Seq<Entry>) -> Seq<u8>
    decreases es.len(),
{
    if es.len() == 0 {
        Seq::empty()
    } else {
        serialize(es.drop_last()) + record_bytes(es.last())
    }
}

/// The entry whose record `b` begins with.
pub open spec fn first_entry(b: Seq<u8>) -> Option<Entry> {
    match RecordHeader::decoded(b) {
        Err(_) => None,
        Ok(h) => {
            let n = 20 + h.name_len;
            let e = Entry {
                name: b.subrange(20, n),
                directory: h.flags == 1,
                data: b.subrange(n, n + h.data_len),
            };
            if h.record_len <= b.len() && entry_ok(e) && b.take(h.record_len as int)
                == record_bytes(e) {
                Some(e)
            } else {
                None
            }
        },
    }
}

/// The `n` entries whose records make up `b`, if that is what `b` is.
pub open spec fn parse(b: Seq<u8>, n: nat) -> Option<Seq<Entry>>
    decreases n,
{
    if n == 0 {
        if b.len() == 0 {
            Some(Seq::empty())
        } else {
            None
        }
    } else {
        match first_entry(b) {
            None => None,
            Some(e) => match parse(b.skip(entry_len(e)), (n - 1) as nat) {
                None => None,
                Some(rest) => Some(seq![e] + rest),
            },
        }
    }
}

pub open spec fn all_ok(es: Seq<Entry>) -> bool {
    forall|i: int| 0 <= i < es.len() ==> entry_ok(#[trigger] es[i])
}

/// No two entries have the same path.
pub open spec fn distinct(es: Seq<Entry>) -> bool {
    forall|i: int, j: int| 0 <= i < j < es.len() ==> es[i].name != es[j].name
}

/// `name` is a directory of the snapshot.
pub open spec fn has_dir(es: Seq<Entry>, name: Seq<u8>) -> bool {
    exists|i: int| 0 <= i < es.len() && (#[trigger] es[i]).name == name && es[i].directory
}

/// Every path but those at the root lies in a directory of the snapshot.
pub open spec fn rooted(es: Seq<Entry>) -> bool {
    forall|i: int|
        0 <= i < es.len() && parent_of((#[trigger] es[i]).name) is Some ==> has_dir(
            es,
            parent_of(es[i].name)->0,
        )
}

/// The entries form a tree.
pub open spec fn tree_ok(es: Seq<Entry>) -> bool {
    distinct(es) && rooted(es)
}

/// An entry of that name exists.
pub open spec fn contains_name(es: Seq<Entry>, name: Seq<u8>) -> bool {
    exists|i: int| 0 <= i < es.len() && (#[trigger] es[i]).name == name
}

/// Position of the entry of that name.
pub open spec fn position(es: Seq<Entry>, name: Seq<u8>) -> int {
    choose|i: int| 0 <= i < es.len() && (#[trigger] es[i]).name == name
}

/// The entry of that name.
pub open spec fn lookup(es: Seq<Entry>, name: Seq<u8>) -> Option<Entry> {
    if contains_name(es, name) {
        Some(es[position(es, name)])
    } else {
        None
    }
}

/// Something lies below the directory `dir`.
pub open spec fn has_below(es: Seq<Entry>, dir: Seq<u8>) -> bool {
    exists|i: int| 0 <= i < es.len() && descendant((#[trigger] es[i]).name, dir)
}

/// A change of the tree.
pub enum Edit {
    Write { name: Seq<u8>, data: Seq<u8> },
    Mkdir { name: Seq<u8> },
    Remove { name: Seq<u8> },
    Rename { old_name: Seq<u8>, new_name: Seq<u8>, recursive: bool },
    Clear,
    Level,
}

/// The rename moves an entry of this name.
pub open spec fn moves(name: Seq<u8>, old_name: Seq<u8>, recursive: bool) -> bool {
    name == old_name || (recursive && descendant(name, old_name))
}

/// What the change makes of an existing entry; nothing if it is dropped.
pub open spec fn edited(edit: Edit, e: Entry) -> Option<Entry> {
    match edit {
        Edit::Write { name, .. } => if e.name == name {
            None
        } else {
            Some(e)
        },
        Edit::Remove { name } => if e.name == name {
            None
        } else {
            Some(e)
        },
        Edit::Rename { old_name, new_name, recursive } => if moves(e.name, old_name, recursive) {
            Some(Entry { name: moved(e.name, old_name, new_name), ..e })
        } else {
            Some(e)
        },
        Edit::Clear => None,
        Edit::Mkdir { .. } => Some(e),
        Edit::Level => Some(e),
    }
}

/// What the change makes of the existing entries, in order.
pub open spec fn kept(edit: Edit, es: Seq<Entry>) -> Seq<Entry>
    decreases es.len(),
{
    if es.len() == 0 {
        Seq::empty()
    } else {
        match edited(edit, es.last()) {
            Some(e) => kept(edit, es.drop_last()).push(e),
            None => kept(edit, es.drop_last()),
        }
    }
}

/// The entry that the change appends, if any.
pub open spec fn added(edit: Edit) -> Seq<Entry> {
    match edit {
        Edit::Write { name, data } => seq![Entry { name, directory: false, data }],
        Edit::Mkdir { name } => seq![Entry { name, directory: true, data: Seq::empty() }],
        _ => Seq::empty(),
    }
}

/// The entries after the change.
pub open spec fn apply(edit: Edit, es: Seq<Entry>) -> Seq<Entry> {
    kept(edit, es) + added(edit)
}

// ---------------------------------------------------------------------------
// Storing and reading back
// ---------------------------------------------------------------------------

pub proof fn lemma_pad4(n: int)
    requires
        n >= 0,
    ensures
        n <= pad4(n) < n + 4,
        pad4(n) % 4 == 0,
{
}

pub proof fn lemma_record_bytes_len(e: Entry)
    requires
        entry_ok(e),
    ensures
        record_bytes(e).len() == entry_len(e),
        entry_len(e) % 4 == 0,
        entry_len(e) >= 24,
        entry_len(e) <= u32::MAX,
        entry_header(e).error() is None,
        entry_header(e).record_len == entry_len(e),
        entry_header(e).data_len == e.data.len(),
        entry_header(e).name_len == e.name.len(),
        record_bytes(e).take(20) == entry_header(e).image(),
        record_bytes(e).subrange(20, name_end(e)) == e.name,
        record_bytes(e).subrange(name_end(e), data_end(e)) == e.data,
{
    reveal(record_bytes);
    let h = entry_header(e);
    lemma_pad4(data_end(e));
    law_record_header_round_trip(h);
    let b = record_bytes(e);
    assert(b.take(20) =~= h.image());
    assert(b.subrange(20, name_end(e)) =~= e.name);
    assert(b.subrange(name_end(e), data_end(e)) =~= e.data);
}

/// A record that passes every test is the record of its entry.
pub proof fn lemma_record_is_entry(b: Seq<u8>, h: RecordHeader, e: Entry)
    requires
        RecordHeader::decoded(b) == Ok::<RecordHeader, super::format::FormatError>(h),
        h.record_len <= b.len(),
        e.name == b.subrange(20, 20 + h.name_len),
        e.data == b.subrange(20 + h.name_len, 20 + h.name_len + h.data_len),
        e.directory == (h.flags == 1),
        entry_ok(e),
        crc_of(e.data) == h.data_crc,
        forall|i: int| 20 + h.name_len + h.data_len <= i < h.record_len ==> b[i] == 0,
    ensures
        first_entry(b) == Some(e),
        entry_len(e) == h.record_len,
{
    reveal(record_bytes);
    law_record_decoded_is_image(b);
    lemma_pad4(20 + h.name_len + h.data_len);
    assert(e.name.len() == h.name_len);
    assert(e.data.len() == h.data_len);
    assert(entry_header(e) == h);
    lemma_record_bytes_len(e);
    let t = b.take(h.record_len as int);
    let r = record_bytes(e);
    assert(t.len() == r.len());
    assert forall|i: int| 0 <= i < t.len() implies t[i] == r[i] by {
        if i < 20 {
            assert(b.take(20)[i] == h.image()[i]);
            assert(r.take(20)[i] == r[i]);
        } else if i < 20 + h.name_len {
            assert(e.name[i - 20] == b[i]);
        } else if i < 20 + h.name_len + h.data_len {
            assert(e.data[i - 20 - h.name_len] == b[i]);
        }
    }
    assert(t =~= r);
}

/// What `first_entry` finds has the header that decodes from the bytes.
pub proof fn lemma_first_entry_header(b: Seq<u8>, e: Entry)
    requires
        first_entry(b) == Some(e),
    ensures
        entry_ok(e),
        RecordHeader::decoded(b) == Ok::<RecordHeader, super::format::FormatError>(
            entry_header(e),
        ),
        entry_len(e) <= b.len(),
        b.take(entry_len(e)) == record_bytes(e),
        b.subrange(20, name_end(e)) == e.name,
        b.subrange(name_end(e), data_end(e)) == e.data,
        forall|i: int|
            data_end(e) <= i < entry_len(e) ==> b[i] == 0,
{
    reveal(record_bytes);
    let h = RecordHeader::decoded(b)->Ok_0;
    lemma_record_bytes_len(e);
    lemma_pad4(20 + h.name_len + h.data_len);
    let r = record_bytes(e);
    assert(b.take(h.record_len as int) == r);
    law_record_decoded_is_image(b);
    law_record_header_round_trip(entry_header(e));
    assert(b.take(20) =~= r.take(20));
    assert(entry_header(e).image() == h.image());
    law_record_header_round_trip(h);
    assert(h == entry_header(e));
    assert forall|i: int| data_end(e) <= i < entry_len(e) implies b[i]
        == 0 by {
        assert(b.take(h.record_len as int)[i] == r[i]);
    }
}

/// A record is found in front of any bytes.
pub proof fn lemma_first_entry_of_record(e: Entry, rest: Seq<u8>)
    requires
        entry_ok(e),
    ensures
        first_entry(record_bytes(e) + rest) == Some(e),
{
    let b = record_bytes(e) + rest;
    let h = entry_header(e);
    lemma_record_bytes_len(e);
    lemma_pad4(data_end(e));
    law_record_header_round_trip(h);
    assert(b.take(20) =~= h.image());
    assert forall|o: int| 0 <= o < 20 implies b[o] == h.image()[o] by {
        assert(b.take(20)[o] == h.image()[o]);
    }
    assert(RecordHeader::fields_of(b) == RecordHeader::fields_of(h.image()));
    assert(b.subrange(20, name_end(e)) =~= record_bytes(e).subrange(20, name_end(e)));
    assert(b.subrange(name_end(e), data_end(e)) =~= record_bytes(
        e,
    ).subrange(name_end(e), data_end(e)));
    assert(b.take(h.record_len as int) =~= record_bytes(e));
}

pub proof fn lemma_serialize_concat(a: Seq<Entry>, b: Seq<Entry>)
    ensures
        serialize(a + b) == serialize(a) + serialize(b),
    decreases b.len(),
{
    if b.len() == 0 {
        assert(a + b =~= a);
        assert(serialize(a) + serialize(b) =~= serialize(a));
    } else {
        lemma_serialize_concat(a, b.drop_last());
        assert((a + b).drop_last() =~= a + b.drop_last());
        assert(serialize(a + b) =~= serialize(a) + serialize(b));
    }
}

pub proof fn lemma_serialize_one(e: Entry)
    ensures
        serialize(seq![e]) == record_bytes(e),
{
    assert(seq![e].drop_last() =~= Seq::<Entry>::empty());
    assert(serialize(seq![e].drop_last()) =~= Seq::<u8>::empty());
    assert(serialize(seq![e]) =~= record_bytes(e));
}

/// Entries read back as they were stored.
pub proof fn law_parse_inverts_serialize(es: Seq<Entry>)
    requires
        all_ok(es),
    ensures
        parse(serialize(es), es.len()) == Some(es),
    decreases es.len(),
{
    if es.len() == 0 {
        assert(es =~= Seq::<Entry>::empty());
    } else {
        let e = es[0];
        let rest = es.skip(1);
        assert(es =~= seq![e] + rest);
        lemma_serialize_concat(seq![e], rest);
        lemma_serialize_one(e);
        lemma_first_entry_of_record(e, serialize(rest));
        lemma_record_bytes_len(e);
        assert(serialize(es).skip(entry_len(e)) =~= serialize(rest));
        law_parse_inverts_serialize(rest);
    }
}

/// What reads back is what is stored: the bytes are determined by the entries.
pub proof fn law_serialize_inverts_parse(b: Seq<u8>, n: nat)
    requires
        parse(b, n) is Some,
    ensures
        serialize(parse(b, n)->0) == b,
        parse(b, n)->0.len() == n,
        all_ok(parse(b, n)->0),
    decreases n,
{
    if n == 0 {
        assert(b =~= Seq::<u8>::empty());
    } else {
        let e = first_entry(b)->0;
        let k = entry_len(e);
        let rest = parse(b.skip(k), (n - 1) as nat)->0;
        lemma_first_entry_header(b, e);
        law_serialize_inverts_parse(b.skip(k), (n - 1) as nat);
        lemma_serialize_concat(seq![e], rest);
        lemma_serialize_one(e);
        lemma_record_bytes_len(e);
        assert(b =~= b.take(k) + b.skip(k));
        let all = seq![e] + rest;
        assert forall|i: int| 0 <= i < all.len() implies entry_ok(#[trigger] all[i]) by {
            if i > 0 {
                assert(all[i] == rest[i - 1]);
            }
        }
    }
}

/// Offset of the record of entry `i`.
pub open spec fn offset_of(es: Seq<Entry>, i: int) -> int {
    serialize(es.take(i)).len() as int
}

proof fn lemma_offset_split(es: Seq<Entry>, i: int)
    requires
        all_ok(es),
        0 <= i < es.len(),
    ensures
        offset_of(es, i + 1) == offset_of(es, i) + entry_len(es[i]),
        offset_of(es, i + 1) <= serialize(es).len(),
        offset_of(es, 0) == 0,
        offset_of(es, es.len() as int) == serialize(es).len(),
        serialize(es).subrange(offset_of(es, i), offset_of(es, i + 1)) == record_bytes(es[i]),
        serialize(es).skip(offset_of(es, i)) == record_bytes(es[i]) + serialize(es.skip(i + 1)),
{
    let e = es[i];
    let head = es.take(i);
    let tail = es.skip(i + 1);
    assert(es.take(i + 1) =~= head + seq![e]);
    assert(es =~= head + (seq![e] + tail));
    lemma_serialize_concat(head, seq![e]);
    lemma_serialize_concat(seq![e], tail);
    lemma_serialize_concat(head, seq![e] + tail);
    lemma_serialize_one(e);
    lemma_record_bytes_len(e);
    assert(es.take(0) =~= Seq::<Entry>::empty());
    assert(es.take(es.len() as int) =~= es);
    assert(serialize(es).skip(offset_of(es, i)) =~= record_bytes(e) + serialize(tail));
    assert(serialize(es).subrange(offset_of(es, i), offset_of(es, i + 1)) =~= record_bytes(e));
}

/// Where the records of the entries lie.
pub proof fn lemma_offset(es: Seq<Entry>, i: int)
    requires
        all_ok(es),
        0 <= i < es.len(),
    ensures
        offset_of(es, i + 1) == offset_of(es, i) + entry_len(es[i]),
        offset_of(es, i + 1) <= serialize(es).len(),
        offset_of(es, 0) == 0,
        offset_of(es, es.len() as int) == serialize(es).len(),
        serialize(es).subrange(offset_of(es, i), offset_of(es, i + 1)) == record_bytes(es[i]),
        first_entry(serialize(es).skip(offset_of(es, i))) == Some(es[i]),
{
    lemma_offset_split(es, i);
    lemma_first_entry_of_record(es[i], serialize(es.skip(i + 1)));
}

pub proof fn lemma_serialize_aligned(es: Seq<Entry>)
    requires
        all_ok(es),
    ensures
        serialize(es).len() % 4 == 0,
    decreases es.len(),
{
    if es.len() > 0 {
        let head = es.drop_last();
        let e = es.last();
        assert(all_ok(head)) by {
            assert forall|i: int| 0 <= i < head.len() implies entry_ok(#[trigger] head[i]) by {
                assert(entry_ok(es[i]));
            }
        }
        lemma_serialize_aligned(head);
        lemma_record_bytes_len(e);
        let a = serialize(head);
        let c = record_bytes(e);
        assert(serialize(es) == a + c);
        assert((a + c).len() == a.len() + c.len());
        assert((a.len() + c.len()) % 4 == 0) by (nonlinear_arith)
            requires
                a.len() % 4 == 0,
                c.len() % 4 == 0,
        ;
    }
}

// ---------------------------------------------------------------------------
// Looking up
// ---------------------------------------------------------------------------

pub proof fn lemma_position(es: Seq<Entry>, i: int)
    requires
        distinct(es),
        0 <= i < es.len(),
    ensures
        contains_name(es, es[i].name),
        position(es, es[i].name) == i,
{
    let name = es[i].name;
    assert(contains_name(es, name));
    let p = position(es, name);
    assert(0 <= p < es.len() && es[p].name == name);
    if p < i {
        assert(es[p].name != es[i].name);
    } else if i < p {
        assert(es[i].name != es[p].name);
    }
}

pub proof fn lemma_lookup(es: Seq<Entry>, i: int)
    requires
        distinct(es),
        0 <= i < es.len(),
    ensures
        lookup(es, es[i].name) == Some(es[i]),
{
    lemma_position(es, i);
}

/// Everything below a directory has that directory above it in the snapshot.
pub proof fn lemma_ancestors(es: Seq<Entry>, i: int, dir: Seq<u8>)
    requires
        rooted(es),
        0 <= i < es.len(),
        descendant(es[i].name, dir),
    ensures
        has_dir(es, dir),
    decreases es[i].name.len(),
{
    let n = es[i].name;
    lemma_descendant_has_parent(n, dir);
    lemma_parent(n);
    let p = parent_of(n)->0;
    assert(has_dir(es, p));
    if p != dir {
        let k = choose|k: int| 0 <= k < es.len() && (#[trigger] es[k]).name == p && es[k].directory;
        lemma_ancestors(es, k, dir);
    }
}

// ---------------------------------------------------------------------------
// Changing
// ---------------------------------------------------------------------------

/// Every entry that is kept comes from an existing one.
pub proof fn lemma_kept_from(edit: Edit, es: Seq<Entry>, j: int) -> (i: int)
    requires
        0 <= j < kept(edit, es).len(),
    ensures
        0 <= i < es.len(),
        edited(edit, es[i]) == Some(kept(edit, es)[j]),
    decreases es.len(),
{
    let head = kept(edit, es.drop_last());
    if j < head.len() {
        let i = lemma_kept_from(edit, es.drop_last(), j);
        i
    } else {
        es.len() - 1
    }
}

/// Every existing entry that is not dropped is kept.
pub proof fn lemma_kept_has(edit: Edit, es: Seq<Entry>, i: int) -> (j: int)
    requires
        0 <= i < es.len(),
        edited(edit, es[i]) is Some,
    ensures
        0 <= j < kept(edit, es).len(),
        kept(edit, es)[j] == edited(edit, es[i])->0,
    decreases es.len(),
{
    if i == es.len() - 1 {
        kept(edit, es).len() - 1
    } else {
        assert(es.drop_last()[i] == es[i]);
        let j = lemma_kept_has(edit, es.drop_last(), i);
        j
    }
}

proof fn lemma_kept_distinct(edit: Edit, es: Seq<Entry>)
    requires
        forall|i: int, k: int|
            0 <= i < k < es.len() && edited(edit, #[trigger] es[i]) is Some && edited(
                edit,
                #[trigger] es[k],
            ) is Some ==> edited(edit, es[i])->0.name != edited(edit, es[k])->0.name,
    ensures
        distinct(kept(edit, es)),
    decreases es.len(),
{
    if es.len() > 0 {
        let head = es.drop_last();
        lemma_kept_distinct(edit, head);
        if edited(edit, es.last()) is Some {
            let ks = kept(edit, es);
            assert forall|a: int, b: int| 0 <= a < b < ks.len() implies ks[a].name
                != ks[b].name by {
                if b == ks.len() - 1 {
                    let i = lemma_kept_from(edit, head, a);
                    assert(es[i] == head[i]);
                    assert(es[es.len() - 1] == es.last());
                }
            }
        }
    }
}

proof fn lemma_kept_ok(edit: Edit, es: Seq<Entry>)
    requires
        forall|i: int|
            0 <= i < es.len() && edited(edit, #[trigger] es[i]) is Some ==> entry_ok(
                edited(edit, es[i])->0,
            ),
    ensures
        all_ok(kept(edit, es)),
{
    let ks = kept(edit, es);
    assert forall|j: int| 0 <= j < ks.len() implies entry_ok(#[trigger] ks[j]) by {
        let i = lemma_kept_from(edit, es, j);
    }
}

proof fn lemma_kept_len(edit: Edit, es: Seq<Entry>)
    ensures
        kept(edit, es).len() <= es.len(),
    decreases es.len(),
{
    if es.len() > 0 {
        lemma_kept_len(edit, es.drop_last());
    }
}

/// Removing something that is there leaves fewer entries.
pub proof fn lemma_removed_len(es: Seq<Entry>, name: Seq<u8>)
    requires
        contains_name(es, name),
    ensures
        apply(Edit::Remove { name }, es).len() < es.len(),
    decreases es.len(),
{
    let edit = Edit::Remove { name };
    let i = choose|i: int| 0 <= i < es.len() && (#[trigger] es[i]).name == name;
    if es.last().name == name {
        lemma_kept_len(edit, es.drop_last());
    } else {
        assert(es.drop_last()[i].name == name);
        lemma_removed_len(es.drop_last(), name);
        assert(apply(edit, es.drop_last()) =~= kept(edit, es.drop_last()));
    }
    assert(apply(edit, es) =~= kept(edit, es));
}

/// A change that keeps every entry as it is keeps the list.
pub proof fn lemma_kept_all(edit: Edit, es: Seq<Entry>)
    requires
        forall|i: int| 0 <= i < es.len() ==> edited(edit, #[trigger] es[i]) == Some(es[i]),
    ensures
        kept(edit, es) == es,
    decreases es.len(),
{
    if es.len() > 0 {
        let head = es.drop_last();
        assert forall|i: int| 0 <= i < head.len() implies edited(edit, #[trigger] head[i]) == Some(
            head[i],
        ) by {
            assert(head[i] == es[i]);
        }
        lemma_kept_all(edit, head);
        assert(edited(edit, es[es.len() - 1]) == Some(es.last()));
        assert(kept(edit, es) =~= es);
    } else {
        assert(kept(edit, es) =~= es);
    }
}

pub proof fn lemma_clear_keeps_nothing(es: Seq<Entry>)
    ensures
        kept(Edit::Clear, es) == Seq::<Entry>::empty(),
    decreases es.len(),
{
    if es.len() > 0 {
        lemma_clear_keeps_nothing(es.drop_last());
    }
}

/// The entry can be put where its name says: its directory exists.
pub open spec fn place_ok(es: Seq<Entry>, name: Seq<u8>) -> bool {
    parent_of(name) is Some ==> has_dir(es, parent_of(name)->0)
}

/// Dropping something that nothing lies below leaves a tree.
proof fn lemma_drop_keeps_tree(edit: Edit, es: Seq<Entry>, name: Seq<u8>)
    requires
        tree_ok(es),
        all_ok(es),
        edit == (Edit::Remove { name }) || (edit is Write && edit->Write_name == name),
        lookup(es, name) is Some && lookup(es, name)->0.directory ==> !has_below(es, name),
    ensures
        tree_ok(kept(edit, es)),
        all_ok(kept(edit, es)),
        !contains_name(kept(edit, es), name),
        forall|d: Seq<u8>| d != name && #[trigger] has_dir(es, d) ==> has_dir(kept(edit, es), d),
{
    let ks = kept(edit, es);
    assert forall|i: int, k: int|
        0 <= i < k < es.len() && edited(edit, #[trigger] es[i]) is Some && edited(
            edit,
            #[trigger] es[k],
        ) is Some implies edited(edit, es[i])->0.name != edited(edit, es[k])->0.name by {
        assert(es[i].name != es[k].name);
    }
    lemma_kept_distinct(edit, es);
    lemma_kept_ok(edit, es);
    assert forall|d: Seq<u8>| d != name && #[trigger] has_dir(es, d) implies has_dir(ks, d) by {
        let i = choose|i: int| 0 <= i < es.len() && (#[trigger] es[i]).name == d && es[i].directory;
        assert(edited(edit, es[i]) == Some(es[i]));
        let j = lemma_kept_has(edit, es, i);
        assert(ks[j].name == d && ks[j].directory);
    }
    assert forall|j: int| 0 <= j < ks.len() && parent_of((#[trigger] ks[j]).name) is Some implies has_dir(
        ks,
        parent_of(ks[j].name)->0,
    ) by {
        let i = lemma_kept_from(edit, es, j);
        assert(ks[j] == es[i]);
        let p = parent_of(es[i].name)->0;
        assert(has_dir(es, p));
        if p == name {
            let k = choose|k: int|
                0 <= k < es.len() && (#[trigger] es[k]).name == p && es[k].directory;
            lemma_lookup(es, k);
            lemma_parent(es[i].name);
            assert(descendant(es[i].name, name));
            assert(has_below(es, name));
        }
    }
    if contains_name(ks, name) {
        let j = position(ks, name);
        assert(ks[j].name == name);
        let i = lemma_kept_from(edit, es, j);
    }
}

/// Appending something whose name is free and whose directory exists leaves a
/// tree.
proof fn lemma_push_keeps_tree(es: Seq<Entry>, e: Entry)
    requires
        tree_ok(es),
        all_ok(es),
        entry_ok(e),
        !contains_name(es, e.name),
        place_ok(es, e.name),
    ensures
        tree_ok(es + seq![e]),
        all_ok(es + seq![e]),
{
    let all = es + seq![e];
    assert forall|i: int, j: int| 0 <= i < j < all.len() implies all[i].name != all[j].name by {
        if j == es.len() {
            assert(all[i] == es[i]);
        }
    }
    assert forall|d: Seq<u8>| #[trigger] has_dir(es, d) implies has_dir(all, d) by {
        let i = choose|i: int| 0 <= i < es.len() && (#[trigger] es[i]).name == d && es[i].directory;
        assert(all[i] == es[i]);
    }
    assert forall|i: int| 0 <= i < all.len() && parent_of((#[trigger] all[i]).name) is Some implies has_dir(
        all,
        parent_of(all[i].name)->0,
    ) by {
        if i < es.len() {
            assert(all[i] == es[i]);
        }
    }
}

/// Writing a file leaves a tree, and the file reads back as it was written
/// while everything else is as before.
pub proof fn law_write_read_back(es: Seq<Entry>, name: Seq<u8>, data: Seq<u8>)
    requires
        tree_ok(es),
        all_ok(es),
        path_ok(name),
        1 <= name.len() <= 63,
        23 + name.len() + data.len() <= u32::MAX,
        place_ok(es, name),
        !(lookup(es, name) is Some && lookup(es, name)->0.directory),
    ensures
        ({
            let new = apply(Edit::Write { name, data }, es);
            &&& tree_ok(new)
            &&& all_ok(new)
            &&& lookup(new, name) == Some(Entry { name, directory: false, data })
            &&& forall|other: Seq<u8>| other != name ==> lookup(new, other) == #[trigger] lookup(
                es,
                other,
            )
        }),
{
    let edit = Edit::Write { name, data };
    let ks = kept(edit, es);
    let e = Entry { name, directory: false, data };
    let new = apply(edit, es);
    lemma_drop_keeps_tree(edit, es, name);
    if parent_of(name) is Some {
        lemma_parent(name);
    }
    lemma_push_keeps_tree(ks, e);
    assert(new[ks.len() as int] == e);
    lemma_lookup(new, ks.len() as int);
    assert forall|other: Seq<u8>| other != name implies lookup(new, other) == #[trigger] lookup(
        es,
        other,
    ) by {
        lemma_same_lookup(edit, es, other);
    }
}

/// A change leaves the entries alone that it does not name.
proof fn lemma_same_lookup(edit: Edit, es: Seq<Entry>, other: Seq<u8>)
    requires
        distinct(es),
        distinct(apply(edit, es)),
        match edit {
            Edit::Write { name, .. } => other != name,
            Edit::Remove { name } => other != name,
            Edit::Mkdir { name } => other != name,
            _ => false,
        },
    ensures
        lookup(apply(edit, es), other) == lookup(es, other),
{
    let ks = kept(edit, es);
    let new = apply(edit, es);
    if contains_name(es, other) {
        let i = position(es, other);
        assert(edited(edit, es[i]) == Some(es[i]));
        let j = lemma_kept_has(edit, es, i);
        assert(new[j] == ks[j]);
        lemma_lookup(new, j);
    } else if contains_name(new, other) {
        let j = position(new, other);
        assert(new[j].name == other);
        if j < ks.len() {
            let i = lemma_kept_from(edit, es, j);
            assert(es[i].name == other);
        }
    }
}

/// Making a directory leaves a tree, and the directory exists while everything
/// else is as before.
pub proof fn law_mkdir_adds_directory(es: Seq<Entry>, name: Seq<u8>)
    requires
        tree_ok(es),
        all_ok(es),
        path_ok(name),
        1 <= name.len() <= 63,
        place_ok(es, name),
        !contains_name(es, name),
    ensures
        ({
            let new = apply(Edit::Mkdir { name }, es);
            &&& tree_ok(new)
            &&& all_ok(new)
            &&& lookup(new, name) == Some(
                Entry { name, directory: true, data: Seq::<u8>::empty() },
            )
            &&& forall|other: Seq<u8>| other != name ==> lookup(new, other) == #[trigger] lookup(
                es,
                other,
            )
        }),
{
    let edit = Edit::Mkdir { name };
    let e = Entry { name, directory: true, data: Seq::<u8>::empty() };
    let new = apply(edit, es);
    lemma_kept_all(edit, es);
    lemma_push_keeps_tree(es, e);
    assert(new[es.len() as int] == e);
    lemma_lookup(new, es.len() as int);
    assert forall|other: Seq<u8>| other != name implies lookup(new, other) == #[trigger] lookup(
        es,
        other,
    ) by {
        lemma_same_lookup(edit, es, other);
    }
}

/// Removing something that nothing lies below leaves a tree without it, and
/// everything else as before.
pub proof fn law_remove_removes(es: Seq<Entry>, name: Seq<u8>)
    requires
        tree_ok(es),
        all_ok(es),
        lookup(es, name) is Some && lookup(es, name)->0.directory ==> !has_below(es, name),
    ensures
        ({
            let new = apply(Edit::Remove { name }, es);
            &&& tree_ok(new)
            &&& all_ok(new)
            &&& lookup(new, name) is None
            &&& forall|other: Seq<u8>| other != name ==> lookup(new, other) == #[trigger] lookup(
                es,
                other,
            )
        }),
{
    let edit = Edit::Remove { name };
    let new = apply(edit, es);
    lemma_drop_keeps_tree(edit, es, name);
    assert(new =~= kept(edit, es));
    assert forall|other: Seq<u8>| other != name implies lookup(new, other) == #[trigger] lookup(
        es,
        other,
    ) by {
        lemma_same_lookup(edit, es, other);
    }
}

/// The names that a rename makes are short enough to be stored.
pub open spec fn moved_names_fit(
    es: Seq<Entry>,
    old_name: Seq<u8>,
    new_name: Seq<u8>,
    recursive: bool,
) -> bool {
    forall|i: int|
        0 <= i < es.len() && moves((#[trigger] es[i]).name, old_name, recursive) ==> moved(
            es[i].name,
            old_name,
            new_name,
        ).len() <= 63
}

/// The rename may be done: the source exists, the target is free and has a
/// directory, and a directory is not moved into itself.
pub open spec fn rename_ok(
    es: Seq<Entry>,
    old_name: Seq<u8>,
    new_name: Seq<u8>,
    recursive: bool,
) -> bool {
    &&& lookup(es, old_name) is Some
    &&& recursive == lookup(es, old_name)->0.directory
    &&& !contains_name(es, new_name)
    &&& place_ok(es, new_name)
    &&& recursive ==> !descendant(new_name, old_name)
    &&& moved_names_fit(es, old_name, new_name, recursive)
}

/// Of two paths at or above a third, one is at or above the other.
proof fn lemma_within_both(path: Seq<u8>, a: Seq<u8>, b: Seq<u8>)
    requires
        within(path, a),
        within(path, b),
        a.len() <= b.len(),
    ensures
        within(b, a),
{
    assert(path.take(a.len() as int) =~= a);
    assert(path.take(b.len() as int) =~= b);
    assert(b.take(a.len() as int) =~= path.take(a.len() as int));
    if a.len() == b.len() {
        assert(b =~= a);
    }
}

/// A rename leaves a tree: what was at or below the old name is at or below the
/// new one, with the same contents, its old path is gone, and everything else is as
/// before.
pub proof fn law_rename_moves_subtree(
    es: Seq<Entry>,
    old_name: Seq<u8>,
    new_name: Seq<u8>,
    recursive: bool,
)
    requires
        tree_ok(es),
        all_ok(es),
        path_ok(new_name),
        rename_ok(es, old_name, new_name, recursive),
        forall|i: int|
            0 <= i < es.len() && moves((#[trigger] es[i]).name, old_name, recursive) ==> 23
                + moved(es[i].name, old_name, new_name).len() + es[i].data.len() <= u32::MAX,
    ensures
        ({
            let new = apply(Edit::Rename { old_name, new_name, recursive }, es);
            &&& tree_ok(new)
            &&& all_ok(new)
            &&& forall|i: int|
                0 <= i < es.len() && moves((#[trigger] es[i]).name, old_name, recursive)
                    ==> lookup(new, moved(es[i].name, old_name, new_name)) == Some(
                    Entry { name: moved(es[i].name, old_name, new_name), ..es[i] },
                )
            &&& forall|i: int|
                0 <= i < es.len() && !moves((#[trigger] es[i]).name, old_name, recursive)
                    ==> lookup(new, es[i].name) == Some(es[i])
            &&& forall|i: int|
                0 <= i < es.len() && moves((#[trigger] es[i]).name, old_name, recursive)
                    ==> lookup(new, es[i].name) is None
            &&& new.len() == es.len()
        }),
{
    let edit = Edit::Rename { old_name, new_name, recursive };
    let ks = kept(edit, es);
    let new = apply(edit, es);
    assert(new =~= ks);
    let o = position(es, old_name);
    assert(contains_name(es, old_name));
    lemma_lookup(es, o);
    assert(moves(es[o].name, old_name, recursive));
    assert(moved(old_name, old_name, new_name) =~= new_name);
    // No entry that stays lies at or below the new name.
    assert forall|k: int|
        0 <= k < es.len() && !moves((#[trigger] es[k]).name, old_name, recursive) implies !within(
        es[k].name,
        new_name,
    ) by {
        if descendant(es[k].name, new_name) {
            lemma_ancestors(es, k, new_name);
            let d = choose|d: int|
                0 <= d < es.len() && (#[trigger] es[d]).name == new_name && es[d].directory;
            assert(contains_name(es, new_name));
        }
    }
    // Everything that is moved ends at or below the new name.
    assert forall|i: int|
        0 <= i < es.len() && moves((#[trigger] es[i]).name, old_name, recursive) implies within(
        moved(es[i].name, old_name, new_name),
        new_name,
    ) && within(es[i].name, old_name) by {
        if es[i].name != old_name {
            lemma_moved_parent(es[i].name, old_name, new_name);
        }
    }
    assert forall|i: int, k: int|
        0 <= i < k < es.len() && edited(edit, #[trigger] es[i]) is Some && edited(
            edit,
            #[trigger] es[k],
        ) is Some implies edited(edit, es[i])->0.name != edited(edit, es[k])->0.name by {
        assert(es[i].name != es[k].name);
        let mi = moves(es[i].name, old_name, recursive);
        let mk = moves(es[k].name, old_name, recursive);
        if mi && mk {
            if moved(es[i].name, old_name, new_name) == moved(es[k].name, old_name, new_name) {
                lemma_moved_injective(es[i].name, es[k].name, old_name, new_name);
            }
        }
    }
    lemma_kept_distinct(edit, es);
    assert forall|i: int| 0 <= i < es.len() && edited(edit, #[trigger] es[i]) is Some implies entry_ok(
        edited(edit, es[i])->0,
    ) by {
        assert(entry_ok(es[i]));
        if moves(es[i].name, old_name, recursive) {
            lemma_moved_ok(es[i].name, old_name, new_name);
        }
    }
    lemma_kept_ok(edit, es);
    assert forall|j: int| 0 <= j < ks.len() && parent_of((#[trigger] ks[j]).name) is Some implies has_dir(
        ks,
        parent_of(ks[j].name)->0,
    ) by {
        let i = lemma_kept_from(edit, es, j);
        lemma_renamed_has_parent(es, old_name, new_name, recursive, i);
    }
    lemma_rename_len(edit, es);
    assert forall|i: int|
        0 <= i < es.len() && moves((#[trigger] es[i]).name, old_name, recursive) implies lookup(
        new,
        moved(es[i].name, old_name, new_name),
    ) == Some(Entry { name: moved(es[i].name, old_name, new_name), ..es[i] }) by {
        let j = lemma_kept_has(edit, es, i);
        lemma_lookup(new, j);
    }
    assert forall|i: int|
        0 <= i < es.len() && !moves((#[trigger] es[i]).name, old_name, recursive) implies lookup(
        new,
        es[i].name,
    ) == Some(es[i]) by {
        let j = lemma_kept_has(edit, es, i);
        lemma_lookup(new, j);
    }
    // Neither name lies at or below the other.
    assert(!within(old_name, new_name)) by {
        if descendant(old_name, new_name) {
            lemma_ancestors(es, o, new_name);
        }
    }
    assert forall|i: int|
        0 <= i < es.len() && moves((#[trigger] es[i]).name, old_name, recursive) implies lookup(
        new,
        es[i].name,
    ) is None by {
        let path = es[i].name;
        if contains_name(new, path) {
            let j = choose|j: int| 0 <= j < new.len() && (#[trigger] new[j]).name == path;
            let k = lemma_kept_from(edit, es, j);
            if moves(es[k].name, old_name, recursive) {
                assert(within(path, new_name));
                assert(within(path, old_name));
                if old_name.len() <= new_name.len() {
                    lemma_within_both(path, old_name, new_name);
                    assert(!recursive);
                } else {
                    lemma_within_both(path, new_name, old_name);
                }
            }
        }
    }
}

proof fn lemma_rename_len(edit: Edit, es: Seq<Entry>)
    requires
        edit is Rename,
    ensures
        kept(edit, es).len() == es.len(),
    decreases es.len(),
{
    if es.len() > 0 {
        lemma_rename_len(edit, es.drop_last());
    }
}

proof fn lemma_renamed_has_parent(
    es: Seq<Entry>,
    old_name: Seq<u8>,
    new_name: Seq<u8>,
    recursive: bool,
    i: int,
)
    requires
        tree_ok(es),
        rename_ok(es, old_name, new_name, recursive),
        0 <= i < es.len(),
    ensures
        ({
            let edit = Edit::Rename { old_name, new_name, recursive };
            let name = edited(edit, es[i])->0.name;
            parent_of(name) is Some ==> has_dir(kept(edit, es), parent_of(name)->0)
        }),
{
    let edit = Edit::Rename { old_name, new_name, recursive };
    let ks = kept(edit, es);
    let n = es[i].name;
    let name = edited(edit, es[i])->0.name;
    let o = position(es, old_name);
    assert(contains_name(es, old_name));
    lemma_lookup(es, o);
    assert(moved(old_name, old_name, new_name) =~= new_name);
    // A directory of the snapshot that is not moved is still there, and one
    // that is moved is there under its new name.
    assert forall|d: Seq<u8>| #[trigger] has_dir(es, d) implies has_dir(
        ks,
        if moves(d, old_name, recursive) {
            moved(d, old_name, new_name)
        } else {
            d
        },
    ) by {
        let k = choose|k: int| 0 <= k < es.len() && (#[trigger] es[k]).name == d && es[k].directory;
        let j = lemma_kept_has(edit, es, k);
        assert(ks[j].directory);
    }
    if parent_of(name) is Some {
        if n == old_name {
            assert(name == new_name);
            let p = parent_of(new_name)->0;
            assert(has_dir(es, p));
            lemma_parent(new_name);
            if moves(p, old_name, recursive) {
                // The target would lie below the source.
                if p == old_name {
                    let k = choose|k: int|
                        0 <= k < es.len() && (#[trigger] es[k]).name == p && es[k].directory;
                    lemma_lookup(es, k);
                    assert(recursive);
                    assert(descendant(new_name, old_name));
                } else {
                    lemma_descendant_trans(new_name, p, old_name);
                }
            }
        } else if moves(n, old_name, recursive) {
            lemma_moved_parent(n, old_name, new_name);
            let p = parent_of(n)->0;
            assert(has_dir(es, p));
            assert(moves(p, old_name, recursive));
        } else {
            let p = parent_of(n)->0;
            assert(has_dir(es, p));
            lemma_parent(n);
            if moves(p, old_name, recursive) {
                if p == old_name {
                    let k = choose|k: int|
                        0 <= k < es.len() && (#[trigger] es[k]).name == p && es[k].directory;
                    lemma_lookup(es, k);
                    assert(recursive);
                } else {
                    lemma_descendant_trans(n, p, old_name);
                }
                assert(descendant(n, old_name));
                assert(false);
            }
        }
    }
}

proof fn lemma_descendant_trans(a: Seq<u8>, b: Seq<u8>, c: Seq<u8>)
    requires
        descendant(a, b),
        descendant(b, c),
    ensures
        descendant(a, c),
{
    assert(a.take(c.len() as int) =~= b.take(c.len() as int)) by {
        assert forall|i: int| 0 <= i < c.len() implies a[i] == b[i] by {
            assert(a.take(b.len() as int)[i] == a[i]);
        }
    }
    assert(a.take(b.len() as int)[c.len() as int] == a[c.len() as int]);
}

/// Moving the snapshot to other blocks changes no entry.
pub proof fn law_level_changes_nothing(es: Seq<Entry>)
    ensures
        apply(Edit::Level, es) == es,
{
    lemma_kept_all(Edit::Level, es);
    assert(apply(Edit::Level, es) =~= es);
}

/// Clearing leaves the empty tree.
pub proof fn law_clear_empties(es: Seq<Entry>)
    ensures
        apply(Edit::Clear, es) == Seq::<Entry>::empty(),
{
    lemma_clear_keeps_nothing(es);
    assert(apply(Edit::Clear, es) =~= Seq::<Entry>::empty());
}

} // verus!
