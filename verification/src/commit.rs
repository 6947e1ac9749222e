//! Crash consistency of the commit protocol.
//!
//! The file operations of an append are carried out in four groups. This
//! module states what each group does to the files and proves that recovery
//! finds the records of before the append after each of the first three
//! groups, and the records with the new one after the fourth. The payloads
//! of the records that were committed before never change.
//!
//! A write is described by what it guarantees: the file is unchanged in
//! front of the target position and holds the data from there. What follows
//! the data is left open, since an aligned write carries padding.

use vstd::prelude::*;

use crate::codec::{
    be64,
    last_or_zero,
    lemma_be64_round_trip,
    ordered,
    word_at,
    words,
};
use crate::direct::{align_down, lemma_aligned_write, write_at};
use crate::error::OpenError;
use crate::layout::FileId;
use crate::model::{
    data_error,
    offsets_error,
    payload,
    recover,
    recover_from,
    start_of,
    stated_length,
    words_error,
    Committed,
    Disk,
    ImageView,
};
use crate::reader::extent_at;
use crate::writer::{
    key_write,
    lemma_push_ordered,
    new_offsets,
    offset_writes,
    payload_writes,
    Stage,
    WriteView,
    WriterView,
};

verus! {

/// The contents of a file of the store. The staging file is not part of the
/// committed state and counts as empty.
pub open spec fn file_of(disk: Disk, file: FileId) -> Seq<u8> {
    match file {
        FileId::Length => disk.length,
        FileId::NewLength => Seq::empty(),
        FileId::Keys => disk.keys,
        FileId::Offsets(t) => if t < disk.tables.len() {
            disk.tables[t as int].offsets
        } else {
            Seq::empty()
        },
        FileId::Data(t) => if t < disk.tables.len() {
            disk.tables[t as int].data
        } else {
            Seq::empty()
        },
    }
}

/// `after` is `before` with `data` written at `pos`, whatever follows the data.
pub open spec fn holds(before: Seq<u8>, after: Seq<u8>, pos: int, data: Seq<u8>) -> bool {
    &&& after.len() >= pos + data.len()
    &&& after.take(pos) == before.take(pos)
    &&& after.subrange(pos, pos + data.len()) == data
}

/// `after` is `before` with every one of the writes carried out, and no
/// other file touched.
pub open spec fn landed(before: Disk, after: Disk, writes: Seq<WriteView>) -> bool {
    &&& after.tables.len() == before.tables.len()
    &&& forall|i: int|
        0 <= i < writes.len() ==> holds(
            file_of(before, (#[trigger] writes[i]).file),
            file_of(after, writes[i].file),
            writes[i].pos as int,
            writes[i].data,
        )
    &&& forall|f: FileId|
        (forall|i: int| 0 <= i < writes.len() ==> (#[trigger] writes[i]).file != f)
            ==> #[trigger] file_of(after, f) == file_of(before, f)
}

/// `after` is `before` with the length file replaced by one that states `bytes`.
pub open spec fn swapped(before: Disk, after: Disk, bytes: Seq<u8>) -> bool {
    &&& after.keys == before.keys
    &&& after.tables == before.tables
    &&& after.length.len() >= 8
    &&& after.length.take(8) == bytes
}

/// The files commit exactly the records that the writer has published.
pub open spec fn reflects(disk: Disk, writer: WriterView) -> bool {
    &&& disk.tables.len() == writer.names.len()
    &&& stated_length(disk.length) == Some(writer.length)
    &&& recover(disk) == Ok::<Committed, OpenError>(writer.records())
}

/// The payloads of the given records are the same on both disks.
pub open spec fn same_payloads(a: Disk, b: Disk, records: Committed) -> bool {
    forall|t: int, i: int|
        0 <= t < records.offsets.len() && 0 <= i < records.keys.len() ==> #[trigger] payload(
            b,
            records,
            t,
            i,
        ) == payload(a, records, t, i)
}

/// The writer with an append of this record in flight.
pub open spec fn begun(writer: WriterView, key: u64, values: Seq<Seq<u8>>) -> WriterView {
    WriterView {
        stage: Stage::Payloads,
        pending_key: key,
        pending_offsets: new_offsets(writer.write_offsets, values),
        ..writer
    }
}

/// Two files that agree on their first `count` words decode to the same words.
pub proof fn lemma_words_stable(a: Seq<u8>, b: Seq<u8>, count: nat)
    requires
        a.len() >= 8 * count,
        b.len() >= 8 * count,
        a.take(8 * count as int) == b.take(8 * count as int),
    ensures
        words(a, count) == words(b, count),
{
    assert forall|i: int| 0 <= i < count implies word_at(a, i) == word_at(b, i) by {
        assert(a.subrange(8 * i, 8 * i + 8) =~= a.take(8 * count as int).subrange(8 * i, 8 * i + 8));
        assert(b.subrange(8 * i, 8 * i + 8) =~= b.take(8 * count as int).subrange(8 * i, 8 * i + 8));
    }
    assert(words(a, count) =~= words(b, count));
}

/// A file that holds the encoding of `value` behind its first `count` words
/// decodes to those words and `value`.
pub proof fn lemma_words_push(a: Seq<u8>, count: nat, value: u64)
    requires
        a.len() >= 8 * count + 8,
        a.subrange(8 * count as int, 8 * count as int + 8) == be64(value),
    ensures
        words(a, count + 1) == words(a, count).push(value),
{
    lemma_be64_round_trip(value);
    assert(word_at(a, count as int) == value);
    assert(words(a, count + 1) =~= words(a, count).push(value));
}

/// No offsets file below `upto` is at fault exactly if none of them is.
proof fn lemma_offsets_error_none(tables: Seq<ImageView>, count: nat, upto: int)
    requires
        0 <= upto,
    ensures
        offsets_error(tables, count, upto) is None <==> forall|t: int|
            0 <= t < upto ==> words_error(
                (#[trigger] tables[t]).offsets,
                count,
                FileId::Offsets(t as usize),
            ) is None,
    decreases upto,
{
    if upto > 0 {
        lemma_offsets_error_none(tables, count, upto - 1);
        if offsets_error(tables, count, upto) is None {
            assert forall|t: int| 0 <= t < upto implies words_error(
                (#[trigger] tables[t]).offsets,
                count,
                FileId::Offsets(t as usize),
            ) is None by {
                if t == upto - 1 {
                }
            }
        } else {
            if offsets_error(tables, count, upto - 1) is None {
                assert(words_error(
                    tables[upto - 1].offsets,
                    count,
                    FileId::Offsets((upto - 1) as usize),
                ) is Some);
            }
        }
    }
}

/// No data file below `upto` is too small exactly if none of them is.
proof fn lemma_data_error_none(tables: Seq<ImageView>, count: nat, upto: int)
    requires
        0 <= upto,
    ensures
        data_error(tables, count, upto) is None <==> forall|t: int|
            0 <= t < upto ==> (#[trigger] tables[t]).data_size >= last_or_zero(
                words(tables[t].offsets, count),
            ),
    decreases upto,
{
    if upto > 0 {
        lemma_data_error_none(tables, count, upto - 1);
        if data_error(tables, count, upto) is None {
            assert forall|t: int| 0 <= t < upto implies (#[trigger] tables[t]).data_size
                >= last_or_zero(words(tables[t].offsets, count)) by {
                if t == upto - 1 {
                }
            }
        } else {
            if data_error(tables, count, upto - 1) is None {
                assert(tables[upto - 1].data_size < last_or_zero(
                    words(tables[upto - 1].offsets, count),
                ));
            }
        }
    }
}

/// What it takes for recovery to succeed.
pub open spec fn sound(length: u64, keys: Seq<u8>, tables: Seq<ImageView>) -> bool {
    &&& keys.len() >= 8 * length
    &&& ordered(words(keys, length as nat))
    &&& forall|t: int|
        0 <= t < tables.len() ==> {
            &&& (#[trigger] tables[t]).offsets.len() >= 8 * length
            &&& ordered(words(tables[t].offsets, length as nat))
            &&& tables[t].data_size >= last_or_zero(words(tables[t].offsets, length as nat))
        }
}

/// Recovery succeeds exactly on files that are long enough and in order,
/// and it then decodes them.
pub proof fn lemma_recover_from(length: u64, keys: Seq<u8>, tables: Seq<ImageView>)
    ensures
        recover_from(length, keys, tables) is Ok <==> sound(length, keys, tables),
        sound(length, keys, tables) ==> recover_from(length, keys, tables) == Ok::<
            Committed,
            OpenError,
        >(
            Committed {
                keys: words(keys, length as nat),
                offsets: Seq::new(tables.len(), |t: int| words(tables[t].offsets, length as nat)),
            },
        ),
{
    let count = length as nat;
    lemma_offsets_error_none(tables, count, tables.len() as int);
    lemma_data_error_none(tables, count, tables.len() as int);
    if sound(length, keys, tables) {
        assert forall|t: int| 0 <= t < tables.len() implies words_error(
            (#[trigger] tables[t]).offsets,
            count,
            FileId::Offsets(t as usize),
        ) is None by {}
        assert(offsets_error(tables, count, tables.len() as int) is None);
        assert(data_error(tables, count, tables.len() as int) is None);
    }
    if recover_from(length, keys, tables) is Ok {
        assert(words_error(keys, count, FileId::Keys) is None);
        assert(offsets_error(tables, count, tables.len() as int) is None);
        assert(data_error(tables, count, tables.len() as int) is None);
        assert forall|t: int| 0 <= t < tables.len() implies {
            &&& (#[trigger] tables[t]).offsets.len() >= 8 * length
            &&& ordered(words(tables[t].offsets, length as nat))
            &&& tables[t].data_size >= last_or_zero(words(tables[t].offsets, length as nat))
        } by {
            assert(words_error(tables[t].offsets, count, FileId::Offsets(t as usize)) is None);
        }
    }
}

/// Files that agree with recoverable ones on the committed words, and whose
/// data is no shorter than the offsets call for, recover to the same records.
pub proof fn lemma_recover_same(before: Disk, after: Disk, length: u64)
    requires
        stated_length(before.length) == Some(length),
        stated_length(after.length) == Some(length),
        recover(before) is Ok,
        after.tables.len() == before.tables.len(),
        after.keys.len() >= 8 * length,
        after.keys.take(8 * length) == before.keys.take(8 * length),
        forall|t: int|
            0 <= t < before.tables.len() ==> {
                &&& (#[trigger] after.tables[t]).offsets.len() >= 8 * length
                &&& after.tables[t].offsets.take(8 * length) == before.tables[t].offsets.take(
                    8 * length,
                )
                &&& after.tables[t].data.len() >= last_or_zero(
                    words(before.tables[t].offsets, length as nat),
                )
            },
    ensures
        recover(after) == recover(before),
{
    let count = length as nat;
    lemma_recover_from(length, before.keys, before.images());
    lemma_recover_from(length, after.keys, after.images());
    lemma_words_stable(before.keys, after.keys, count);
    assert forall|t: int| 0 <= t < after.images().len() implies {
        &&& (#[trigger] after.images()[t]).offsets.len() >= 8 * length
        &&& ordered(words(after.images()[t].offsets, count))
        &&& after.images()[t].data_size >= last_or_zero(words(after.images()[t].offsets, count))
        &&& words(after.images()[t].offsets, count) == words(before.images()[t].offsets, count)
    } by {
        assert(before.images()[t].offsets.len() >= 8 * length);
        assert(after.tables[t].offsets.len() >= 8 * length);
        lemma_words_stable(before.tables[t].offsets, after.tables[t].offsets, count);
    }
    assert(recover(after)->Ok_0.offsets =~= recover(before)->Ok_0.offsets);
}

/// What recovery succeeded on is long enough, in order, and covered by the data.
pub proof fn lemma_reflects(disk: Disk, writer: WriterView)
    requires
        reflects(disk, writer),
    ensures
        disk.keys.len() >= 8 * writer.length,
        writer.keys == words(disk.keys, writer.length as nat),
        writer.offsets.len() == disk.tables.len(),
        forall|t: int|
            0 <= t < disk.tables.len() ==> {
                &&& (#[trigger] disk.tables[t]).offsets.len() >= 8 * writer.length
                &&& writer.offsets[t] == words(disk.tables[t].offsets, writer.length as nat)
                &&& disk.tables[t].data.len() >= last_or_zero(writer.offsets[t])
            },
{
    lemma_recover_from(writer.length, disk.keys, disk.images());
    assert forall|t: int| 0 <= t < disk.tables.len() implies {
        &&& (#[trigger] disk.tables[t]).offsets.len() >= 8 * writer.length
        &&& writer.offsets[t] == words(disk.tables[t].offsets, writer.length as nat)
        &&& disk.tables[t].data.len() >= last_or_zero(writer.offsets[t])
    } by {
        assert(disk.images()[t].offsets == disk.tables[t].offsets);
    }
}

/// A payload that ends at or before `pos` is untouched by a write at `pos`.
proof fn lemma_payload_kept(before: Seq<u8>, after: Seq<u8>, pos: int, from: int, to: int)
    requires
        0 <= from <= to <= pos <= before.len(),
        pos <= after.len(),
        after.take(pos) == before.take(pos),
    ensures
        after.subrange(from, to) == before.subrange(from, to),
{
    assert(after.subrange(from, to) =~= after.take(pos).subrange(from, to));
    assert(before.subrange(from, to) =~= before.take(pos).subrange(from, to));
}

/// After the payload writes the files commit what they committed before,
/// the committed payloads are unchanged, and the new payloads are in place.
pub proof fn lemma_payloads_keep(
    before: Disk,
    after: Disk,
    writer: WriterView,
    values: Seq<Seq<u8>>,
)
    requires
        writer.wf(),
        reflects(before, writer),
        values.len() == writer.names.len(),
        landed(before, after, payload_writes(writer.write_offsets, values)),
    ensures
        reflects(after, writer),
        same_payloads(before, after, writer.records()),
        forall|t: int|
            0 <= t < values.len() ==> (#[trigger] after.tables[t]).data.subrange(
                writer.write_offsets[t] as int,
                writer.write_offsets[t] + values[t].len(),
            ) == values[t],
{
    let writes = payload_writes(writer.write_offsets, values);
    let length = writer.length;
    lemma_reflects(before, writer);
    assert(file_of(after, FileId::Length) == file_of(before, FileId::Length));
    assert(file_of(after, FileId::Keys) == file_of(before, FileId::Keys));
    assert forall|t: int| 0 <= t < before.tables.len() implies {
        &&& (#[trigger] after.tables[t]).offsets == before.tables[t].offsets
        &&& holds(
            before.tables[t].data,
            after.tables[t].data,
            writer.write_offsets[t] as int,
            values[t],
        )
    } by {
        assert(file_of(after, FileId::Offsets(t as usize)) == file_of(
            before,
            FileId::Offsets(t as usize),
        ));
        assert(writes[t].file == FileId::Data(t as usize));
    }
    assert forall|t: int| 0 <= t < before.tables.len() implies {
        &&& (#[trigger] after.tables[t]).offsets.len() >= 8 * length
        &&& after.tables[t].offsets.take(8 * length) == before.tables[t].offsets.take(8 * length)
        &&& after.tables[t].data.len() >= last_or_zero(
            words(before.tables[t].offsets, length as nat),
        )
    } by {
        assert(after.tables[t].offsets == before.tables[t].offsets);
        assert(writer.write_offsets[t] == last_or_zero(writer.offsets[t]));
    }
    lemma_recover_same(before, after, length);
    let records = writer.records();
    assert forall|t: int, i: int|
        0 <= t < records.offsets.len() && 0 <= i < records.keys.len() implies #[trigger] payload(
        after,
        records,
        t,
        i,
    ) == payload(before, records, t, i) by {
        let ends = records.offsets[t];
        assert(ends.len() == records.keys.len());
        assert(ordered(ends));
        assert(writer.write_offsets[t] == last_or_zero(ends));
        assert(ends[i] <= ends[ends.len() - 1]);
        if i > 0 {
            assert(ends[i - 1] <= ends[i]);
        }
        assert(after.tables[t].offsets == before.tables[t].offsets);
        lemma_payload_kept(
            before.tables[t].data,
            after.tables[t].data,
            writer.write_offsets[t] as int,
            start_of(ends, i) as int,
            ends[i] as int,
        );
    }
    assert forall|t: int| 0 <= t < values.len() implies (#[trigger] after.tables[t]).data.subrange(
        writer.write_offsets[t] as int,
        writer.write_offsets[t] + values[t].len(),
    ) == values[t] by {
        assert(after.tables[t].offsets == before.tables[t].offsets);
    }
}

/// After the offset writes the files commit what they committed before, the
/// data is untouched, and each table's new end offset stands behind the
/// committed ones.
pub proof fn lemma_offsets_keep(before: Disk, after: Disk, writer: WriterView, ends: Seq<u64>)
    requires
        writer.wf(),
        reflects(before, writer),
        ends.len() == writer.names.len(),
        8 * writer.length + 8 <= u64::MAX,
        landed(before, after, offset_writes(writer.length, ends)),
    ensures
        reflects(after, writer),
        after.keys == before.keys,
        forall|t: int|
            0 <= t < ends.len() ==> {
                &&& (#[trigger] after.tables[t]).data == before.tables[t].data
                &&& after.tables[t].offsets.len() >= 8 * writer.length + 8
                &&& after.tables[t].offsets.subrange(8 * writer.length, 8 * writer.length + 8)
                    == be64(ends[t])
            },
{
    let writes = offset_writes(writer.length, ends);
    let length = writer.length;
    lemma_reflects(before, writer);
    assert(file_of(after, FileId::Length) == file_of(before, FileId::Length));
    assert(file_of(after, FileId::Keys) == file_of(before, FileId::Keys));
    assert forall|t: int| 0 <= t < before.tables.len() implies {
        &&& (#[trigger] after.tables[t]).data == before.tables[t].data
        &&& holds(before.tables[t].offsets, after.tables[t].offsets, 8 * length, be64(ends[t]))
    } by {
        assert(file_of(after, FileId::Data(t as usize)) == file_of(
            before,
            FileId::Data(t as usize),
        ));
        assert(writes[t].file == FileId::Offsets(t as usize));
    }
    assert forall|t: int| 0 <= t < before.tables.len() implies {
        &&& (#[trigger] after.tables[t]).offsets.len() >= 8 * length
        &&& after.tables[t].offsets.take(8 * length) == before.tables[t].offsets.take(8 * length)
        &&& after.tables[t].data.len() >= last_or_zero(
            words(before.tables[t].offsets, length as nat),
        )
    } by {
        assert(after.tables[t].data == before.tables[t].data);
    }
    lemma_recover_same(before, after, length);
    assert forall|t: int| 0 <= t < ends.len() implies {
        &&& (#[trigger] after.tables[t]).data == before.tables[t].data
        &&& after.tables[t].offsets.len() >= 8 * writer.length + 8
        &&& after.tables[t].offsets.subrange(8 * writer.length, 8 * writer.length + 8) == be64(
            ends[t],
        )
    } by {
        assert(after.tables[t].data == before.tables[t].data);
        crate::codec::lemma_be_bytes_len(ends[t] as nat, 8);
    }
}

/// After the key write the files commit what they committed before, the
/// tables are untouched, and the key stands behind the committed ones.
pub proof fn lemma_key_keeps(before: Disk, after: Disk, writer: WriterView, key: u64)
    requires
        writer.wf(),
        reflects(before, writer),
        8 * writer.length + 8 <= u64::MAX,
        landed(before, after, key_write(writer.length, key)),
    ensures
        reflects(after, writer),
        after.tables == before.tables,
        after.keys.len() >= 8 * writer.length + 8,
        after.keys.subrange(8 * writer.length, 8 * writer.length + 8) == be64(key),
{
    let writes = key_write(writer.length, key);
    let length = writer.length;
    lemma_reflects(before, writer);
    assert(file_of(after, FileId::Length) == file_of(before, FileId::Length));
    assert(writes[0].file == FileId::Keys);
    assert(holds(file_of(before, writes[0].file), file_of(after, writes[0].file), 8 * length, be64(key)));
    assert forall|t: int| 0 <= t < before.tables.len() implies #[trigger] after.tables[t]
        == before.tables[t] by {
        assert(file_of(after, FileId::Data(t as usize)) == file_of(
            before,
            FileId::Data(t as usize),
        ));
        assert(file_of(after, FileId::Offsets(t as usize)) == file_of(
            before,
            FileId::Offsets(t as usize),
        ));
    }
    assert(after.tables =~= before.tables);
    crate::codec::lemma_be_bytes_len(key as nat, 8);
    assert forall|t: int| 0 <= t < before.tables.len() implies {
        &&& (#[trigger] after.tables[t]).offsets.len() >= 8 * length
        &&& after.tables[t].offsets.take(8 * length) == before.tables[t].offsets.take(8 * length)
        &&& after.tables[t].data.len() >= last_or_zero(
            words(before.tables[t].offsets, length as nat),
        )
    } by {}
    lemma_recover_same(before, after, length);
}

/// The swap of the length file commits the append in flight: if the key and
/// each table's end offset stand behind the committed ones and the data
/// reaches those offsets, recovery finds the records with the new one.
pub proof fn lemma_swap_commits(before: Disk, after: Disk, writer: WriterView)
    requires
        writer.wf(),
        writer.stage != Stage::Idle,
        reflects(before, writer),
        before.keys.len() >= 8 * writer.length + 8,
        before.keys.subrange(8 * writer.length, 8 * writer.length + 8) == be64(writer.pending_key),
        forall|t: int|
            0 <= t < writer.names.len() ==> {
                &&& (#[trigger] before.tables[t]).offsets.len() >= 8 * writer.length + 8
                &&& before.tables[t].offsets.subrange(8 * writer.length, 8 * writer.length + 8)
                    == be64(writer.pending_offsets[t])
                &&& before.tables[t].data.len() >= writer.pending_offsets[t]
            },
        swapped(before, after, be64((writer.length + 1) as u64)),
    ensures
        reflects(after, writer.published()),
{
    let length = writer.length;
    let next = (length + 1) as u64;
    let count = length as nat;
    let done = writer.published();
    lemma_reflects(before, writer);
    lemma_be64_round_trip(next);
    assert(stated_length(after.length) == Some(next));
    lemma_words_push(after.keys, count, writer.pending_key);
    lemma_push_ordered(writer.keys, writer.pending_key);
    assert forall|t: int| 0 <= t < after.images().len() implies {
        &&& (#[trigger] after.images()[t]).offsets.len() >= 8 * next
        &&& ordered(words(after.images()[t].offsets, next as nat))
        &&& after.images()[t].data_size >= last_or_zero(
            words(after.images()[t].offsets, next as nat),
        )
        &&& words(after.images()[t].offsets, next as nat) == done.offsets[t]
    } by {
        assert(after.tables[t] == before.tables[t]);
        assert(before.tables[t].offsets.len() >= 8 * length + 8);
        lemma_words_push(after.tables[t].offsets, count, writer.pending_offsets[t]);
        assert(writer.records().offsets[t].len() == writer.keys.len());
        assert(ordered(writer.records().offsets[t]));
        assert(writer.write_offsets[t] == last_or_zero(writer.offsets[t]));
        assert(writer.pending_offsets[t] >= writer.write_offsets[t]);
        lemma_push_ordered(writer.offsets[t], writer.pending_offsets[t]);
    }
    lemma_recover_from(next, after.keys, after.images());
    assert(recover(after)->Ok_0.offsets =~= done.offsets);
}

/// Crash consistency of an append.
///
/// Let the files commit what the writer has published, and let the four
/// groups of file operations of an append be carried out one after the
/// other. Then recovery finds the records of before the append after each
/// of the first three groups, and the records with the new one after the
/// fourth. The payloads that were committed before are the same on every
/// one of these disks, and the committed payloads of the new record are the
/// values that were appended.
pub proof fn lemma_append_commits(
    writer: WriterView,
    key: u64,
    values: Seq<Seq<u8>>,
    start: Disk,
    after_payloads: Disk,
    after_offsets: Disk,
    after_key: Disk,
    after_swap: Disk,
)
    requires
        writer.wf(),
        values.len() == writer.names.len(),
        writer.accepts(key, values),
        reflects(start, writer),
        landed(start, after_payloads, payload_writes(writer.write_offsets, values)),
        landed(
            after_payloads,
            after_offsets,
            offset_writes(writer.length, new_offsets(writer.write_offsets, values)),
        ),
        landed(after_offsets, after_key, key_write(writer.length, key)),
        swapped(after_key, after_swap, be64((writer.length + 1) as u64)),
    ensures
        recover(after_payloads) == recover(start),
        recover(after_offsets) == recover(start),
        recover(after_key) == recover(start),
        recover(after_swap) == Ok::<Committed, OpenError>(
            begun(writer, key, values).published().records(),
        ),
        begun(writer, key, values).published().records() == writer.records().push(
            key,
            new_offsets(writer.write_offsets, values),
        ),
        same_payloads(start, after_payloads, writer.records()),
        same_payloads(start, after_offsets, writer.records()),
        same_payloads(start, after_key, writer.records()),
        same_payloads(start, after_swap, writer.records()),
        forall|t: int|
            0 <= t < values.len() ==> #[trigger] payload(
                after_swap,
                begun(writer, key, values).published().records(),
                t,
                writer.length as int,
            ) == values[t],
{
    let ends = new_offsets(writer.write_offsets, values);
    let flying = begun(writer, key, values);
    let records = writer.records();
    lemma_payloads_keep(start, after_payloads, writer, values);
    lemma_offsets_keep(after_payloads, after_offsets, writer, ends);
    lemma_key_keeps(after_offsets, after_key, writer, key);
    assert(flying.wf()) by {
        assert forall|t: int| 0 <= t < flying.names.len() implies #[trigger] flying.pending_offsets[t]
            >= flying.write_offsets[t] by {
            assert(writer.write_offsets[t] + values[t].len() <= u64::MAX);
        }
    }
    assert(reflects(after_key, flying));
    assert forall|t: int| 0 <= t < flying.names.len() implies {
        &&& (#[trigger] after_key.tables[t]).offsets.len() >= 8 * flying.length + 8
        &&& after_key.tables[t].offsets.subrange(8 * flying.length, 8 * flying.length + 8)
            == be64(flying.pending_offsets[t])
        &&& after_key.tables[t].data.len() >= flying.pending_offsets[t]
        &&& after_key.tables[t].data == after_payloads.tables[t].data
    } by {
        assert(after_key.tables[t] == after_offsets.tables[t]);
        assert(after_offsets.tables[t].data == after_payloads.tables[t].data);
        assert(writer.write_offsets[t] + values[t].len() <= u64::MAX);
        assert(after_payloads.tables[t].data.subrange(
            writer.write_offsets[t] as int,
            writer.write_offsets[t] + values[t].len(),
        ) == values[t]);
        lemma_landed_len(start, after_payloads, writer, values, t);
    }
    lemma_swap_commits(after_key, after_swap, flying);
    assert(flying.published().records().offsets =~= records.push(key, ends).offsets);
    assert forall|t: int, i: int|
        0 <= t < records.offsets.len() && 0 <= i < records.keys.len() implies #[trigger] payload(
        after_offsets,
        records,
        t,
        i,
    ) == payload(start, records, t, i) by {
        assert(payload(after_payloads, records, t, i) == payload(start, records, t, i));
        assert(after_offsets.tables[t].data == after_payloads.tables[t].data);
    }
    assert forall|t: int, i: int|
        0 <= t < records.offsets.len() && 0 <= i < records.keys.len() implies #[trigger] payload(
        after_key,
        records,
        t,
        i,
    ) == payload(start, records, t, i) by {
        assert(payload(after_offsets, records, t, i) == payload(start, records, t, i));
        assert(after_key.tables[t] == after_offsets.tables[t]);
    }
    assert forall|t: int, i: int|
        0 <= t < records.offsets.len() && 0 <= i < records.keys.len() implies #[trigger] payload(
        after_swap,
        records,
        t,
        i,
    ) == payload(start, records, t, i) by {
        assert(payload(after_key, records, t, i) == payload(start, records, t, i));
        assert(after_swap.tables[t] == after_key.tables[t]);
    }
    assert forall|t: int| 0 <= t < values.len() implies #[trigger] payload(
        after_swap,
        flying.published().records(),
        t,
        writer.length as int,
    ) == values[t] by {
        let done = flying.published().records();
        assert(after_swap.tables[t] == after_key.tables[t]);
        assert(after_key.tables[t].data == after_payloads.tables[t].data);
        assert(records.offsets[t].len() == records.keys.len());
        assert(writer.write_offsets[t] == last_or_zero(writer.offsets[t]));
        assert(writer.write_offsets[t] + values[t].len() <= u64::MAX);
        assert(done.offsets[t] == writer.offsets[t].push(ends[t]));
        assert(start_of(done.offsets[t], writer.length as int) == writer.write_offsets[t]);
        assert(done.offsets[t][writer.length as int] == ends[t]);
    }
}

/// A data file that a payload has landed in reaches the payload's end.
proof fn lemma_landed_len(
    before: Disk,
    after: Disk,
    writer: WriterView,
    values: Seq<Seq<u8>>,
    t: int,
)
    requires
        values.len() == writer.names.len(),
        writer.names.len() <= usize::MAX,
        before.tables.len() == writer.names.len(),
        writer.write_offsets.len() == writer.names.len(),
        landed(before, after, payload_writes(writer.write_offsets, values)),
        0 <= t < values.len(),
    ensures
        after.tables[t].data.len() >= writer.write_offsets[t] + values[t].len(),
{
    let writes = payload_writes(writer.write_offsets, values);
    assert(writes[t].file == FileId::Data(t as usize));
    assert(holds(
        file_of(before, writes[t].file),
        file_of(after, writes[t].file),
        writes[t].pos as int,
        writes[t].data,
    ));
}

/// A store whose length file states zero commits no record, whatever its
/// other files hold.
pub proof fn lemma_fresh_store(disk: Disk)
    requires
        stated_length(disk.length) == Some(0u64),
    ensures
        recover(disk) == Ok::<Committed, OpenError>(
            Committed {
                keys: Seq::empty(),
                offsets: Seq::new(disk.tables.len(), |t: int| Seq::<u64>::empty()),
            },
        ),
{
    lemma_recover_from(0, disk.keys, disk.images());
    assert(words(disk.keys, 0) =~= Seq::<u64>::empty());
    assert forall|t: int| 0 <= t < disk.images().len() implies words(
        (#[trigger] disk.images()[t]).offsets,
        0,
    ) == Seq::<u64>::empty() by {
        assert(words(disk.images()[t].offsets, 0) =~= Seq::<u64>::empty());
    }
    assert(recover(disk)->Ok_0.offsets =~= Seq::new(
        disk.tables.len(),
        |t: int| Seq::<u64>::empty(),
    ));
}

/// An aligned write lands its data: whatever the buffer carries behind the
/// data, the file holds the data at the target position afterwards and is
/// unchanged in front of it.
pub proof fn lemma_aligned_write_holds(
    file: Seq<u8>,
    pos: int,
    alignment: int,
    data: Seq<u8>,
    tail: Seq<u8>,
)
    requires
        0 <= pos <= file.len(),
        alignment > 0,
    ensures
        holds(
            file,
            write_at(
                file,
                align_down(pos, alignment),
                file.subrange(align_down(pos, alignment), pos) + data + tail,
            ),
            pos,
            data,
        ),
{
    lemma_aligned_write(file, pos, alignment, data, tail);
}

/// The extent that a reader resolves a record to is where the record's
/// payload lies in the data file.
pub proof fn lemma_extent_is_payload(disk: Disk, records: Committed, table: int, index: int)
    requires
        records.wf(),
        0 <= table < records.offsets.len(),
        0 <= index < records.keys.len(),
    ensures
        ({
            let extent = extent_at(records.offsets[table], index);
            payload(disk, records, table, index) == disk.tables[table].data.subrange(
                extent.pos as int,
                extent.pos + extent.len,
            )
        }),
{
    let ends = records.offsets[table];
    assert(ends.len() == records.keys.len());
    assert(ordered(ends));
    if index > 0 {
        assert(ends[index - 1] <= ends[index]);
    }
}

} // verus!
