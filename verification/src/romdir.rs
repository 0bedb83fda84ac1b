//! Decoder for the "romdir" archive format and bounded reads of its entries.
//!
//! The archive is a flat binary blob. Somewhere in the blob sits a table of
//! fixed 16-byte records: 10 bytes of NUL-padded name, a 2-byte little-endian
//! extra-info size (ignored), and a 4-byte little-endian entry size. The table
//! starts at the record whose first six bytes are the sentinel `RESET\0`;
//! records before it are skipped. The sentinel record itself is consumed as
//! the table header and not exposed. Entry offsets are not stored: a running
//! counter starts at 0 after the header and advances by each record's size
//! rounded up to a multiple of 16. A record named `-` is padding: it advances
//! the counter but produces no entry. A record whose name field starts with a
//! NUL byte ends the table.

use vstd::prelude::*;
use vstd::slice::slice_subrange;
use vstd::slice::slice_to_vec;

verus! {

/// Error raised by archive operations.
#[derive(Clone, Copy, Debug, PartialEq, Eq, Structural)]
pub enum RomdirError {
    /// The requested file could not be found in the archive.
    FileNotFound,
    /// The record table is malformed: the sentinel is missing, a record is
    /// truncated, a name field has no NUL terminator, or an entry's byte
    /// range does not fit inside the blob.
    CorruptArchive,
}

/// Offset and size of one archive entry inside the backing blob.
#[derive(Clone, Copy, Debug, PartialEq, Eq, Structural)]
pub struct FileMetadata {
    pub offset: u32,
    pub size: u32,
}

/// Mathematical model of one record of the table: its name bytes, its byte
/// offset inside the blob, and its byte length.
pub ghost struct EntryModel {
    pub name: Seq<u8>,
    pub offset: int,
    pub size: int,
}

/// `n` rounded up to the next multiple of 16.
pub open spec fn round16(n: int) -> int {
    ((n + 15) / 16) * 16
}

/// The little-endian 32-bit value stored at `b[i..i+4]`.
pub open spec fn le32(b: Seq<u8>, i: int) -> int {
    b[i] + 0x100 * b[i + 1] + 0x10000 * b[i + 2] + 0x1000000 * b[i + 3]
}

/// Position of the first NUL byte within the 10-byte name field at `pos`,
/// scanning from `k`; 10 if the field holds no NUL byte.
pub open spec fn nul_in(b: Seq<u8>, pos: int, k: int) -> int
    decreases 10 - k,
{
    if k >= 10 {
        10
    } else if b[pos + k] == 0 {
        k
    } else {
        nul_in(b, pos, k + 1)
    }
}

/// The six sentinel bytes `RESET\0` stand at `b[pos..pos+6]`.
pub open spec fn is_sentinel_at(b: Seq<u8>, pos: int) -> bool {
    &&& b[pos] == 82
    &&& b[pos + 1] == 69
    &&& b[pos + 2] == 83
    &&& b[pos + 3] == 69
    &&& b[pos + 4] == 84
    &&& b[pos + 5] == 0
}

/// Position just after the sentinel record, scanning 16 bytes at a time from
/// `pos`; `None` when the stream ends before a whole sentinel record is found.
pub open spec fn header_end(b: Seq<u8>, pos: int) -> Option<int>
    decreases b.len() - pos + 16,
{
    if pos + 10 > b.len() {
        None
    } else if is_sentinel_at(b, pos) {
        if pos + 16 <= b.len() {
            Some(pos + 16)
        } else {
            None
        }
    } else {
        header_end(b, pos + 16)
    }
}

/// The name of a padding record.
pub open spec fn dash_name() -> Seq<u8> {
    seq![45u8]
}

/// The records of the table starting at `pos`, padding records included, with
/// offsets counted from `counter`. `None` when the stream ends inside a
/// record, a name field has no NUL terminator, a record's byte range leaves
/// the blob, or its offset does not fit in 32 bits.
pub open spec fn rec_list(b: Seq<u8>, pos: int, counter: int) -> Option<Seq<EntryModel>>
    decreases b.len() - pos + 16,
{
    if pos + 10 > b.len() {
        None
    } else if b[pos] == 0 {
        Some(Seq::empty())
    } else if nul_in(b, pos, 0) >= 10 {
        None
    } else if pos + 16 > b.len() {
        None
    } else {
        let size = le32(b, pos + 12);
        if counter > 0xFFFF_FFFF || counter + size > b.len() {
            None
        } else {
            match rec_list(b, pos + 16, counter + round16(size)) {
                None => None,
                Some(rest) => Some(
                    seq![
                        EntryModel {
                            name: b.subrange(pos, pos + nul_in(b, pos, 0)),
                            offset: counter,
                            size: size,
                        },
                    ] + rest,
                ),
            }
        }
    }
}

/// Index of the first record of `t` named `name`, scanning from `k`;
/// `t.len()` if no record bears that name.
pub open spec fn find_name(t: Seq<EntryModel>, name: Seq<u8>, k: int) -> int
    decreases t.len() - k,
{
    if k < 0 || k >= t.len() {
        t.len() as int
    } else if t[k].name == name {
        k
    } else {
        find_name(t, name, k + 1)
    }
}

/// Some record of `t` is named `name`.
pub open spec fn contains_name(t: Seq<EntryModel>, name: Seq<u8>) -> bool {
    find_name(t, name, 0) < t.len()
}

/// The first record of `t` named `name`.
pub open spec fn entry_named(t: Seq<EntryModel>, name: Seq<u8>) -> EntryModel {
    t[find_name(t, name, 0)]
}

/// `t` with `e` added: a record already named like `e` is replaced in place,
/// keeping its position; otherwise `e` is appended.
pub open spec fn upsert(t: Seq<EntryModel>, e: EntryModel) -> Seq<EntryModel> {
    let i = find_name(t, e.name, 0);
    if i < t.len() {
        t.update(i, e)
    } else {
        t.push(e)
    }
}

/// The entry table built from the record list `recs`: padding records are
/// dropped, and a later record reusing a name replaces the earlier entry's
/// offset and size while the entry keeps its position.
pub open spec fn table_of(recs: Seq<EntryModel>) -> Seq<EntryModel>
    decreases recs.len(),
{
    if recs.len() == 0 {
        Seq::empty()
    } else {
        let prev = table_of(recs.drop_last());
        let r = recs.last();
        if r.name == dash_name() {
            prev
        } else {
            upsert(prev, r)
        }
    }
}

/// The entry table decoded from the whole blob `b`: find the sentinel, read
/// the records after it, and build the table. `None` when decoding fails.
pub open spec fn parse_spec(b: Seq<u8>) -> Option<Seq<EntryModel>> {
    match header_end(b, 0) {
        None => None,
        Some(he) => match rec_list(b, he, 0) {
            None => None,
            Some(recs) => Some(table_of(recs)),
        },
    }
}

proof fn lemma_round16_basics(n: int)
    requires
        n >= 0,
    ensures
        n <= round16(n) < n + 16,
        round16(n) % 16 == 0,
{
    vstd::arithmetic::div_mod::lemma_fundamental_div_mod(n + 15, 16);
    vstd::arithmetic::div_mod::lemma_mod_division_less_than_divisor(n + 15, 16);
    vstd::arithmetic::div_mod::lemma_mod_multiples_basic((n + 15) / 16, 16);
}

proof fn lemma_round16_add(c: int, s: int)
    requires
        c >= 0,
        c % 16 == 0,
        s >= 0,
    ensures
        c + round16(s) == round16(c + s),
{
    vstd::arithmetic::div_mod::lemma_fundamental_div_mod(c, 16);
    let k = c / 16;
    vstd::arithmetic::div_mod::lemma_hoist_over_denominator(s + 15, k, 16nat);
    assert((s + 15) / 16 + k == (s + 15 + k * 16) / 16);
    assert(((s + 15) / 16 + k) * 16 == ((s + 15) / 16) * 16 + k * 16);
}

proof fn lemma_nul_in_props(b: Seq<u8>, pos: int, k: int)
    requires
        0 <= k <= 10,
    ensures
        k <= nul_in(b, pos, k) <= 10,
        nul_in(b, pos, k) < 10 ==> b[pos + nul_in(b, pos, k)] == 0,
        forall|j: int| k <= j < nul_in(b, pos, k) ==> #[trigger] b[pos + j] != 0,
    decreases 10 - k,
{
    if k < 10 && b[pos + k] != 0 {
        lemma_nul_in_props(b, pos, k + 1);
    }
}

/// Properties of `find_name`: it returns the index of the first record named
/// `name` at or after `k`, or the table's length when there is none.
pub proof fn lemma_find_name_props(t: Seq<EntryModel>, name: Seq<u8>, k: int)
    requires
        0 <= k <= t.len(),
    ensures
        k <= find_name(t, name, k) <= t.len(),
        find_name(t, name, k) < t.len() ==> t[find_name(t, name, k)].name == name,
        forall|j: int| k <= j < find_name(t, name, k) ==> t[j].name != name,
        find_name(t, name, k) == t.len() ==> forall|j: int| k <= j < t.len() ==> t[j].name != name,
    decreases t.len() - k,
{
    if k < t.len() && t[k].name != name {
        lemma_find_name_props(t, name, k + 1);
    }
}

/// Every record's byte range lies inside the blob, offsets are multiples of
/// 16 that fit in 32 bits, sizes fit in 32 bits, names have 1 to 9 bytes, the
/// first record sits at `counter`, and each later record's offset is the
/// previous record's offset plus its size, rounded up to a multiple of 16.
pub open spec fn records_well_placed(b: Seq<u8>, r: Seq<EntryModel>, counter: int) -> bool {
    &&& (forall|i: int|
        0 <= i < r.len() ==> {
            let e = #[trigger] r[i];
            &&& 0 <= e.offset <= 0xFFFF_FFFF
            &&& e.offset % 16 == 0
            &&& 0 <= e.size <= 0xFFFF_FFFF
            &&& e.offset + e.size <= b.len()
            &&& 1 <= e.name.len() <= 9
        })
    &&& (r.len() > 0 ==> r[0].offset == counter)
    &&& (forall|i: int|
        0 <= i < r.len() - 1 ==> #[trigger] r[i + 1].offset == round16(r[i].offset + r[i].size))
}

/// Alignment law of the record list: whenever decoding succeeds, consecutive
/// records (padding included) are laid out contiguously with each offset
/// equal to the previous record's end rounded up to the next multiple of 16,
/// and every record's byte range stays inside the blob.
pub proof fn lemma_record_alignment(b: Seq<u8>, pos: int, counter: int)
    requires
        0 <= pos,
        rec_list(b, pos, counter) is Some,
        counter >= 0,
        counter % 16 == 0,
    ensures
        records_well_placed(b, rec_list(b, pos, counter)->Some_0, counter),
    decreases b.len() - pos + 16,
{
    let r = rec_list(b, pos, counter)->Some_0;
    if pos + 10 > b.len() {
    } else if b[pos] == 0 {
    } else {
        let nl = nul_in(b, pos, 0);
        lemma_nul_in_props(b, pos, 0);
        if nl < 10 && pos + 16 <= b.len() {
            let size = le32(b, pos + 12);
            assert(0 <= size <= 0xFFFF_FFFF);
            if counter <= 0xFFFF_FFFF && counter + size <= b.len() {
                lemma_round16_basics(size);
                let counter2 = counter + round16(size);
                assert(counter2 % 16 == 0) by {
                    vstd::arithmetic::div_mod::lemma_mod_multiples_vanish(
                        round16(size) / 16,
                        counter,
                        16,
                    );
                    vstd::arithmetic::div_mod::lemma_fundamental_div_mod(round16(size), 16);
                }
                lemma_record_alignment(b, pos + 16, counter2);
                lemma_round16_add(counter, size);
                let rest = rec_list(b, pos + 16, counter2)->Some_0;
                let head = EntryModel {
                    name: b.subrange(pos, pos + nl),
                    offset: counter,
                    size: size,
                };
                assert(r == seq![head] + rest);
                assert(nl >= 1) by {
                    if nl == 0 {
                        assert(b[pos + 0] == 0);
                    }
                }
                assert(r[0] == head);
                assert(forall|i: int| 1 <= i < r.len() ==> r[i] == #[trigger] rest[i - 1]);
                assert forall|i: int| 0 <= i < r.len() implies {
                    let e = #[trigger] r[i];
                    &&& 0 <= e.offset <= 0xFFFF_FFFF
                    &&& e.offset % 16 == 0
                    &&& 0 <= e.size <= 0xFFFF_FFFF
                    &&& e.offset + e.size <= b.len()
                    &&& 1 <= e.name.len() <= 9
                } by {
                    if i == 0 {
                        assert(r[0] == head);
                        assert(head.name.len() == nl);
                    } else {
                        assert(r[i] == rest[i - 1]);
                    }
                }
                assert forall|i: int| 0 <= i < r.len() - 1 implies #[trigger] r[i + 1].offset
                    == round16(r[i].offset + r[i].size) by {
                    if i == 0 {
                        assert(rest.len() > 0);
                        assert(r[1] == rest[0]);
                        assert(rest[0].offset == counter2);
                    } else {
                        assert(r[i] == rest[i - 1]);
                        assert(r[i + 1] == rest[i]);
                        assert(rest[i - 1 + 1].offset == round16(
                            rest[i - 1].offset + rest[i - 1].size,
                        ));
                    }
                }
            }
        }
    }
}

/// Every entry of the table stems from some non-padding record of `recs`,
/// with the same name, offset and size.
pub proof fn lemma_table_entries(recs: Seq<EntryModel>)
    ensures
        forall|i: int|
            0 <= i < table_of(recs).len() ==> exists|j: int|
                0 <= j < recs.len() && #[trigger] table_of(recs)[i] == recs[j] && recs[j].name
                    != dash_name(),
    decreases recs.len(),
{
    if recs.len() > 0 {
        let drop = recs.drop_last();
        let prev = table_of(drop);
        let last = recs.last();
        lemma_table_entries(drop);
        assert(forall|j: int| 0 <= j < recs.len() - 1 ==> drop[j] == #[trigger] recs[j]);
        assert(last == recs[recs.len() - 1]);
        let t = table_of(recs);
        assert forall|i: int| 0 <= i < t.len() implies exists|j: int|
            0 <= j < recs.len() && #[trigger] t[i] == recs[j] && recs[j].name != dash_name() by {
            if last.name == dash_name() {
                assert(t == prev);
                let j = choose|j: int|
                    0 <= j < drop.len() && #[trigger] prev[i] == drop[j] && drop[j].name
                        != dash_name();
                assert(0 <= j < recs.len() && t[i] == recs[j] && recs[j].name != dash_name());
            } else {
                let f = find_name(prev, last.name, 0);
                lemma_find_name_props(prev, last.name, 0);
                if f < prev.len() {
                    assert(t == prev.update(f, last));
                    if i == f {
                        assert(t[i] == recs[recs.len() - 1]);
                    } else {
                        assert(t[i] == prev[i]);
                        let j = choose|j: int|
                            0 <= j < drop.len() && #[trigger] prev[i] == drop[j] && drop[j].name
                                != dash_name();
                        assert(0 <= j < recs.len() && t[i] == recs[j] && recs[j].name
                            != dash_name());
                    }
                } else {
                    assert(t == prev.push(last));
                    if i == prev.len() {
                        assert(t[i] == recs[recs.len() - 1]);
                    } else {
                        assert(t[i] == prev[i]);
                        let j = choose|j: int|
                            0 <= j < drop.len() && #[trigger] prev[i] == drop[j] && drop[j].name
                                != dash_name();
                        assert(0 <= j < recs.len() && t[i] == recs[j] && recs[j].name
                            != dash_name());
                    }
                }
            }
        }
    }
}

/// The names of the entries of the table built from any record list are
/// distinct: replacement on reuse of a name keeps the table free of
/// duplicates.
pub proof fn lemma_table_distinct(recs: Seq<EntryModel>)
    ensures
        forall|i: int, j: int|
            0 <= i < j < table_of(recs).len() ==> #[trigger] table_of(recs)[i].name != #[trigger] table_of(
                recs,
            )[j].name,
    decreases recs.len(),
{
    if recs.len() > 0 {
        let drop = recs.drop_last();
        let prev = table_of(drop);
        let last = recs.last();
        lemma_table_distinct(drop);
        let t = table_of(recs);
        if last.name == dash_name() {
            assert(t == prev);
        } else {
            let f = find_name(prev, last.name, 0);
            lemma_find_name_props(prev, last.name, 0);
            assert forall|i: int, j: int| 0 <= i < j < t.len() implies #[trigger] t[i].name
                != #[trigger] t[j].name by {
                if f < prev.len() {
                    assert(t == prev.update(f, last));
                    assert(prev[f].name == last.name);
                    assert(t[i].name == prev[i].name);
                    assert(t[j].name == prev[j].name);
                } else {
                    assert(t == prev.push(last));
                    if j < prev.len() {
                        assert(t[i] == prev[i] && t[j] == prev[j]);
                    } else {
                        assert(t[i] == prev[i] && t[j] == last);
                        assert(prev[i].name != last.name);
                    }
                }
            }
        }
    }
}

/// The record list starting at `pos` holds at most one record per 16 bytes
/// left in the blob.
proof fn lemma_rec_list_len(b: Seq<u8>, pos: int, counter: int)
    requires
        rec_list(b, pos, counter) is Some,
    ensures
        16 * rec_list(b, pos, counter)->Some_0.len() <= b.len() - pos + 16,
    decreases b.len() - pos + 16,
{
    if pos + 10 > b.len() {
    } else if b[pos] == 0 {
    } else if nul_in(b, pos, 0) >= 10 {
    } else if pos + 16 > b.len() {
    } else {
        let size = le32(b, pos + 12);
        if !(counter > 0xFFFF_FFFF || counter + size > b.len()) {
            if rec_list(b, pos + 16, counter + round16(size)) is Some {
                lemma_rec_list_len(b, pos + 16, counter + round16(size));
            }
        }
    }
}

/// The table never has more entries than the record list has records.
proof fn lemma_table_len(recs: Seq<EntryModel>)
    ensures
        table_of(recs).len() <= recs.len(),
    decreases recs.len(),
{
    if recs.len() > 0 {
        lemma_table_len(recs.drop_last());
        let prev = table_of(recs.drop_last());
        let last = recs.last();
        if last.name != dash_name() {
            lemma_find_name_props(prev, last.name, 0);
        }
    }
}

/// One decoded entry: its name bytes and its place in the backing blob.
struct ArchiveEntry {
    name: Vec<u8>,
    offset: u32,
    size: u32,
}

/// The models of a sequence of decoded entries.
spec fn models(s: Seq<ArchiveEntry>) -> Seq<EntryModel> {
    s.map(
        |i: int, e: ArchiveEntry|
            EntryModel { name: e.name@, offset: e.offset as int, size: e.size as int },
    )
}

/// A decoded archive: the entry table in parse order, and the backing blob
/// the entries point into. Immutable once built. Reads address the blob by
/// absolute positions and keep no cursor, so concurrent reads through shared
/// references cannot disturb one another.
pub struct Archive {
    entries: Vec<ArchiveEntry>,
    data: Vec<u8>,
}

impl Archive {
    /// The entry table, in parse order.
    pub closed spec fn table(self) -> Seq<EntryModel> {
        models(self.entries@)
    }

    /// The backing blob.
    pub closed spec fn source(self) -> Seq<u8> {
        self.data@
    }

    /// Every entry's byte range lies inside the blob, its fields fit their
    /// 32-bit representation, its name has 1 to 9 bytes, and no two entries
    /// share a name. The blob fits in memory and holds at least 16 bytes per
    /// entry, so the table's length stays within every machine bound.
    #[verifier::type_invariant]
    pub open spec fn wf(self) -> bool {
        &&& self.source().len() <= usize::MAX as int
        &&& 16 * self.table().len() <= self.source().len()
        &&& (forall|i: int|
            0 <= i < self.table().len() ==> {
                let e = #[trigger] self.table()[i];
                &&& 0 <= e.offset <= 0xFFFF_FFFF
                &&& 0 <= e.size <= 0xFFFF_FFFF
                &&& e.offset + e.size <= self.source().len()
                &&& 1 <= e.name.len() <= 9
            })
        &&& (forall|i: int, j: int|
            0 <= i < j < self.table().len() ==> #[trigger] self.table()[i].name
                != #[trigger] self.table()[j].name)
    }
}

/// The two byte slices hold the same bytes.
pub(crate) fn bytes_eq(a: &[u8], b: &[u8]) -> (r: bool)
    ensures
        r == (a@ == b@),
{
    if a.len() != b.len() {
        return false;
    }
    let mut i: usize = 0;
    while i < a.len()
        invariant
            a@.len() == b@.len(),
            i <= a@.len(),
            forall|j: int| 0 <= j < i ==> a@[j] == b@[j],
        decreases a@.len() - i,
    {
        if a[i] != b[i] {
            return false;
        }
        i = i + 1;
    }
    proof {
        assert(a@ =~= b@);
    }
    true
}

/// Index of the first entry named `name`, or the table's length.
fn find_index(entries: &Vec<ArchiveEntry>, name: &[u8]) -> (r: usize)
    ensures
        r as int == find_name(models(entries@), name@, 0),
{
    let ghost t = models(entries@);
    let mut i: usize = 0;
    while i < entries.len()
        invariant
            t == models(entries@),
            i <= entries@.len(),
            t.len() == entries@.len(),
            find_name(t, name@, 0) == find_name(t, name@, i as int),
        decreases entries@.len() - i,
    {
        if bytes_eq(entries[i].name.as_slice(), name) {
            assert(t[i as int].name == name@);
            return i;
        }
        assert(t[i as int].name != name@);
        i = i + 1;
    }
    entries.len()
}

impl Archive {
    /// Decode an archive from `data`: skip ahead to the `RESET\0` sentinel
    /// record, consume it as the table header, read the records after it,
    /// and keep the blob for later reads. Fails with `CorruptArchive` when
    /// the sentinel is missing, the stream ends inside a record, a name
    /// field has no NUL terminator, or a record's byte range does not fit
    /// inside the blob.
    pub fn new(data: Vec<u8>) -> (r: Result<Archive, RomdirError>)
        ensures
            (r matches Ok(a) ==> parse_spec(data@) == Some(a.table()) && a.source() == data@),
            (r matches Err(e) ==> parse_spec(data@) is None && e == RomdirError::CorruptArchive),
    {
        proof {
            vstd::std_specs::vec::axiom_spec_len(&data);
        }
        let mut pos: usize = 0;
        loop
            invariant
                pos <= data@.len(),
                header_end(data@, 0) == header_end(data@, pos as int),
            ensures
                pos as int + 16 <= data@.len(),
                is_sentinel_at(data@, pos as int),
                header_end(data@, 0) == header_end(data@, pos as int),
            decreases data@.len() - pos,
        {
            if data.len() - pos < 16 {
                proof {
                    if pos as int + 10 <= data@.len() {
                        assert(header_end(data@, pos as int + 16) is None);
                    }
                    assert(header_end(data@, pos as int) is None);
                }
                return Err(RomdirError::CorruptArchive);
            }
            if data[pos] == 82u8 && data[pos + 1] == 69u8 && data[pos + 2] == 83u8 && data[pos + 3]
                == 69u8 && data[pos + 4] == 84u8 && data[pos + 5] == 0u8 {
                break;
            }
            proof {
                assert(!is_sentinel_at(data@, pos as int));
            }
            pos = pos + 16;
        }
        let start: usize = pos + 16;
        proof {
            assert(header_end(data@, pos as int) == Some(start as int));
        }
        let mut entries: Vec<ArchiveEntry> = Vec::new();
        let mut counter: u64 = 0;
        let ghost mut processed: Seq<EntryModel> = Seq::<EntryModel>::empty();
        pos = start;
        proof {
            assert(processed + rec_list(data@, pos as int, 0)->Some_0 =~= rec_list(
                data@,
                pos as int,
                0,
            )->Some_0);
        }
        loop
            invariant
                start <= pos <= data@.len(),
                header_end(data@, 0) == Some(start as int),
                counter as int <= 0x2_0000_0010,
                models(entries@) == table_of(processed),
                (rec_list(data@, pos as int, counter as int) is None ==> rec_list(
                    data@,
                    start as int,
                    0,
                ) is None),
                (rec_list(data@, pos as int, counter as int) matches Some(rest) ==> rec_list(
                    data@,
                    start as int,
                    0,
                ) == Some(processed + rest)),
            ensures
                rec_list(data@, start as int, 0) == Some(processed),
                models(entries@) == table_of(processed),
            decreases data@.len() - pos,
        {
            if data.len() - pos < 10 {
                proof {
                    assert(rec_list(data@, pos as int, counter as int) is None);
                }
                return Err(RomdirError::CorruptArchive);
            }
            if data[pos] == 0u8 {
                proof {
                    assert(rec_list(data@, pos as int, counter as int) == Some(
                        Seq::<EntryModel>::empty(),
                    ));
                    assert(processed + Seq::<EntryModel>::empty() =~= processed);
                }
                break;
            }
            let mut nl: usize = 0;
            while nl < 10 && data[pos + nl] != 0u8
                invariant
                    nl <= 10,
                    pos as int + 10 <= data@.len(),
                    data@.len() <= usize::MAX as int,
                    nul_in(data@, pos as int, 0) == nul_in(data@, pos as int, nl as int),
                decreases 10 - nl,
            {
                nl = nl + 1;
            }
            if nl == 10 {
                proof {
                    assert(nul_in(data@, pos as int, 0) >= 10);
                    assert(rec_list(data@, pos as int, counter as int) is None);
                }
                return Err(RomdirError::CorruptArchive);
            }
            proof {
                assert(nul_in(data@, pos as int, 0) == nl as int);
                assert(nl >= 1) by {
                    if nl == 0 {
                        assert(data@[pos as int] == 0);
                    }
                }
            }
            if data.len() - pos < 16 {
                proof {
                    assert(rec_list(data@, pos as int, counter as int) is None);
                }
                return Err(RomdirError::CorruptArchive);
            }
            let size: u32 = (data[pos + 12] as u32) + 0x100u32 * (data[pos + 13] as u32)
                + 0x10000u32 * (data[pos + 14] as u32) + 0x1000000u32 * (data[pos + 15] as u32);
            proof {
                assert(size as int == le32(data@, pos as int + 12));
            }
            if counter > 0xFFFF_FFFFu64 || counter + (size as u64) > (data.len() as u64) {
                proof {
                    assert(rec_list(data@, pos as int, counter as int) is None);
                }
                return Err(RomdirError::CorruptArchive);
            }
            let adv: u64 = ((size as u64) + 15) / 16 * 16;
            proof {
                assert(adv as int == round16(size as int));
            }
            let ghost cur = EntryModel {
                name: data@.subrange(pos as int, pos as int + nl as int),
                offset: counter as int,
                size: size as int,
            };
            let ghost tbl_old = models(entries@);
            if nl == 1 && data[pos] == 45u8 {
                proof {
                    assert(cur.name =~= dash_name());
                }
            } else {
                proof {
                    assert(cur.name != dash_name()) by {
                        if nl != 1 {
                            assert(cur.name.len() == nl as int);
                        } else {
                            assert(cur.name[0] == data@[pos as int]);
                            assert(dash_name()[0] == 45);
                        }
                    }
                }
                let name = slice_to_vec(slice_subrange(data.as_slice(), pos, pos + nl));
                let idx = find_index(&entries, name.as_slice());
                if idx < entries.len() {
                    entries.set(idx, ArchiveEntry { name, offset: counter as u32, size });
                    proof {
                        assert(models(entries@) =~= tbl_old.update(idx as int, cur));
                        assert(models(entries@) == upsert(tbl_old, cur));
                    }
                } else {
                    entries.push(ArchiveEntry { name, offset: counter as u32, size });
                    proof {
                        assert(models(entries@) =~= tbl_old.push(cur));
                        assert(models(entries@) == upsert(tbl_old, cur));
                    }
                }
            }
            proof {
                let rl_next = rec_list(data@, pos as int + 16, counter as int + round16(
                    size as int,
                ));
                if rl_next is Some {
                    assert(rec_list(data@, pos as int, counter as int) == Some(
                        seq![cur] + rl_next->Some_0,
                    ));
                    assert(processed + (seq![cur] + rl_next->Some_0) =~= (processed.push(cur))
                        + rl_next->Some_0);
                } else {
                    assert(rec_list(data@, pos as int, counter as int) is None);
                }
                assert(processed.push(cur).drop_last() =~= processed);
                assert(processed.push(cur).last() == cur);
                processed = processed.push(cur);
                assert(models(entries@) == table_of(processed));
            }
            counter = counter + adv;
            pos = pos + 16;
        }
        proof {
            lemma_record_alignment(data@, start as int, 0);
            lemma_table_entries(processed);
            lemma_table_distinct(processed);
            lemma_rec_list_len(data@, start as int, 0);
            lemma_table_len(processed);
            let t = table_of(processed);
            assert(16 * t.len() <= data@.len());
            assert forall|i: int| 0 <= i < t.len() implies {
                let e = #[trigger] t[i];
                &&& 0 <= e.offset <= 0xFFFF_FFFF
                &&& 0 <= e.size <= 0xFFFF_FFFF
                &&& e.offset + e.size <= data@.len()
                &&& 1 <= e.name.len() <= 9
            } by {
                let j = choose|j: int|
                    0 <= j < processed.len() && #[trigger] t[i] == processed[j] && processed[j].name
                        != dash_name();
                assert(records_well_placed(data@, processed, 0));
            }
        }
        Ok(Archive { entries, data })
    }

    /// Offset and size of the entry named `name`, or `FileNotFound` when no
    /// entry bears that name.
    pub fn metadata(&self, name: &[u8]) -> (r: Result<FileMetadata, RomdirError>)
        ensures
            contains_name(self.table(), name@) ==> (r matches Ok(md) && md.offset as int
                == entry_named(self.table(), name@).offset && md.size as int == entry_named(
                self.table(),
                name@,
            ).size),
            !contains_name(self.table(), name@) ==> r == Err::<FileMetadata, RomdirError>(
                RomdirError::FileNotFound,
            ),
    {
        let i = find_index(&self.entries, name);
        if i < self.entries.len() {
            Ok(FileMetadata { offset: self.entries[i].offset, size: self.entries[i].size })
        } else {
            Err(RomdirError::FileNotFound)
        }
    }

    /// All the bytes of the entry named `name`, or `FileNotFound` when no
    /// entry bears that name.
    pub fn read_file(&self, name: &[u8]) -> (r: Result<Vec<u8>, RomdirError>)
        ensures
            contains_name(self.table(), name@) ==> (r matches Ok(v) && v@ == self.source()
                .subrange(
                entry_named(self.table(), name@).offset,
                entry_named(self.table(), name@).offset + entry_named(self.table(), name@).size,
            )),
            !contains_name(self.table(), name@) ==> r == Err::<Vec<u8>, RomdirError>(
                RomdirError::FileNotFound,
            ),
    {
        let md = match self.metadata(name) {
            Ok(md) => md,
            Err(e) => {
                return Err(e);
            },
        };
        proof {
            use_type_invariant(self);
            vstd::std_specs::vec::axiom_spec_len(&self.data);
            lemma_find_name_props(self.table(), name@, 0);
            assert(entry_named(self.table(), name@) == self.table()[find_name(
                self.table(),
                name@,
                0,
            )]);
            let e = entry_named(self.table(), name@);
            assert(0 <= e.offset && 0 <= e.size && e.offset + e.size <= self.source().len());
        }
        let off = md.offset as usize;
        let sz = md.size as usize;
        Ok(slice_to_vec(slice_subrange(self.data.as_slice(), off, off + sz)))
    }

    /// A bounded read of the entry named `name`: up to `length` bytes
    /// starting `offset` bytes into the entry, clamped to the entry's own
    /// byte range; empty once `offset` reaches the entry's size. Never
    /// touches a byte outside the entry's range.
    pub fn read(&self, name: &[u8], offset: u64, length: u32) -> (r: Result<
        Vec<u8>,
        RomdirError,
    >)
        ensures
            contains_name(self.table(), name@) ==> (r matches Ok(v) && v@ == read_bytes(
                self.source(),
                entry_named(self.table(), name@),
                offset as int,
                length as int,
            )),
            !contains_name(self.table(), name@) ==> r == Err::<Vec<u8>, RomdirError>(
                RomdirError::FileNotFound,
            ),
    {
        let md = match self.metadata(name) {
            Ok(md) => md,
            Err(e) => {
                return Err(e);
            },
        };
        proof {
            use_type_invariant(self);
            vstd::std_specs::vec::axiom_spec_len(&self.data);
            lemma_find_name_props(self.table(), name@, 0);
            assert(entry_named(self.table(), name@) == self.table()[find_name(
                self.table(),
                name@,
                0,
            )]);
            let e = entry_named(self.table(), name@);
            assert(0 <= e.offset && 0 <= e.size && e.offset + e.size <= self.source().len());
        }
        if offset >= md.size as u64 {
            return Ok(Vec::new());
        }
        let off = offset as usize;
        let n: usize = if (length as u64) <= (md.size as u64) - offset {
            length as usize
        } else {
            (md.size as u64 - offset) as usize
        };
        let s = md.offset as usize + off;
        Ok(slice_to_vec(slice_subrange(self.data.as_slice(), s, s + n)))
    }

    /// The names of all entries, in parse order.
    pub fn file_names(&self) -> (r: Vec<Vec<u8>>)
        ensures
            r@.len() == self.table().len(),
            forall|i: int| 0 <= i < r@.len() ==> (#[trigger] r@[i])@ == self.table()[i].name,
    {
        let mut out: Vec<Vec<u8>> = Vec::new();
        let mut i: usize = 0;
        while i < self.entries.len()
            invariant
                i <= self.entries@.len(),
                out@.len() == i,
                forall|j: int| 0 <= j < i ==> (#[trigger] out@[j])@ == self.table()[j].name,
            decreases self.entries@.len() - i,
        {
            out.push(slice_to_vec(self.entries[i].name.as_slice()));
            i = i + 1;
        }
        out
    }

    /// The names of all entries, one by one, in parse order.
    pub fn file_names_iter(&self) -> (r: Vec<Vec<u8>>)
        ensures
            r@.len() == self.table().len(),
            forall|i: int| 0 <= i < r@.len() ==> (#[trigger] r@[i])@ == self.table()[i].name,
    {
        self.file_names()
    }
}

/// Number of bytes a clamped read of `length` bytes at `offset` yields from
/// an entry of `size` bytes.
pub open spec fn clamp_len(size: int, offset: int, length: int) -> int {
    if offset >= size {
        0
    } else if length <= size - offset {
        length
    } else {
        size - offset
    }
}

/// The bytes a clamped read returns: up to `length` bytes starting `offset`
/// bytes into the entry's byte range, never past the entry's end.
pub open spec fn read_bytes(src: Seq<u8>, e: EntryModel, offset: int, length: int) -> Seq<u8> {
    if offset >= e.size {
        Seq::empty()
    } else {
        src.subrange(e.offset + offset, e.offset + offset + clamp_len(e.size, offset, length))
    }
}

/// Law: a read of a whole entry — `offset` 0, `length` the entry's size —
/// returns exactly the entry's slice of the backing blob.
pub proof fn lemma_read_whole_entry(a: Archive, name: Seq<u8>)
    requires
        a.wf(),
        contains_name(a.table(), name),
    ensures
        ({
            let e = entry_named(a.table(), name);
            read_bytes(a.source(), e, 0, e.size) == a.source().subrange(
                e.offset,
                e.offset + e.size,
            )
        }),
{
    let e = entry_named(a.table(), name);
    lemma_find_name_props(a.table(), name, 0);
    assert(e == a.table()[find_name(a.table(), name, 0)]);
    assert(0 <= e.offset && 0 <= e.size && e.offset + e.size <= a.source().len());
    if e.size == 0 {
        assert(read_bytes(a.source(), e, 0, e.size) =~= a.source().subrange(
            e.offset,
            e.offset + e.size,
        ));
    }
}

/// Law: reads at an entry's boundary. At `offset` equal to the entry's size
/// the result is empty, whatever length was asked for; one byte before the
/// end, any read of at least one byte returns exactly the entry's last byte.
pub proof fn lemma_read_boundary(a: Archive, name: Seq<u8>, length: int)
    requires
        a.wf(),
        contains_name(a.table(), name),
    ensures
        read_bytes(a.source(), entry_named(a.table(), name), entry_named(a.table(), name).size, length)
            == Seq::<u8>::empty(),
        ({
            let e = entry_named(a.table(), name);
            e.size >= 1 && length >= 1 ==> read_bytes(a.source(), e, e.size - 1, length)
                == seq![a.source()[e.offset + e.size - 1]]
        }),
{
    let e = entry_named(a.table(), name);
    lemma_find_name_props(a.table(), name, 0);
    assert(e == a.table()[find_name(a.table(), name, 0)]);
    assert(0 <= e.offset && 0 <= e.size && e.offset + e.size <= a.source().len());
    if e.size >= 1 && length >= 1 {
        assert(clamp_len(e.size, e.size - 1, length) == 1);
        assert(read_bytes(a.source(), e, e.size - 1, length) =~= seq![
            a.source()[e.offset + e.size - 1],
        ]);
    }
}

} // verus!
