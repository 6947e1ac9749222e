//! Recovery: from the contents of a store's files to its writer and readers.
//!
//! The caller reads the files. It first reads the length file and learns the
//! committed record count from `read_length`; that count tells how much of
//! the keys file and of each offsets file is to be read for `open`.

use vstd::prelude::*;

use crate::codec::{decode_ordered, decode_u64, encode_u64, be64, last_or_zero, ordered, words};
use crate::config::Config;
use crate::error::OpenError;
use crate::layout::FileId;
use crate::model::{
    data_error,
    offsets_error,
    recover_from,
    stated_length,
    words_error,
    Committed,
    ImageView,
};
use crate::reader::{clone_names, ReaderFactory, ReaderFactoryView, ReaderView, Reader};
use crate::seq::{append_values, max_segment_len, new_pair, seen, written};
use crate::writer::{Stage, Writer, WriterFactory, WriterView};

verus! {

/// What was read of one table: the committed part of its offsets file, and
/// the size of its data file.
#[derive(Debug, Clone, PartialEq, Eq)]
pub struct TableImage {
    pub offsets: Vec<u8>,
    pub data_size: u64,
}

impl View for TableImage {
    type V = ImageView;

    open spec fn view(&self) -> ImageView {
        ImageView { offsets: self.offsets@, data_size: self.data_size as int }
    }
}

/// What was read of all tables.
pub open spec fn images(tables: Seq<TableImage>) -> Seq<ImageView> {
    Seq::new(tables.len(), |t: int| tables[t]@)
}

/// The writer that recovery makes of the committed records.
pub open spec fn recovered_writer(cfg: Config, length: u64, records: Committed) -> WriterView {
    WriterView {
        path: cfg@.path,
        names: cfg@.tables,
        keys: records.keys,
        offsets: records.offsets,
        write_offsets: Seq::new(records.offsets.len(), |t: int| last_or_zero(records.offsets[t])),
        length,
        last_key: last_or_zero(records.keys),
        stage: Stage::Idle,
        pending_key: 0,
        pending_offsets: Seq::empty(),
    }
}

/// The readers that recovery makes: their handles have not looked yet.
pub open spec fn recovered_reader(cfg: Config) -> ReaderFactoryView {
    ReaderFactoryView {
        path: cfg@.path,
        reader: ReaderView {
            names: cfg@.tables,
            keys: Seq::empty(),
            offsets: Seq::new(cfg@.tables.len(), |t: int| Seq::<u64>::empty()),
        },
    }
}

/// The bytes to write into a length file of the given size when the store
/// is created: a count of zero if the file is empty, nothing otherwise.
pub fn initial_length(size: u64) -> (res: Option<Vec<u8>>)
    ensures
        match res {
            Some(bytes) => size == 0 && bytes@ == be64(0),
            None => size != 0,
        },
{
    if size == 0 {
        Some(encode_u64(0))
    } else {
        None
    }
}

/// Reads the committed record count from the contents of the length file.
/// Only the first eight bytes count.
pub fn read_length(bytes: &[u8]) -> (res: Result<u64, OpenError>)
    ensures
        match stated_length(bytes@) {
            Some(length) => res == Ok::<u64, OpenError>(length),
            None => res == Err::<u64, OpenError>(OpenError::LengthMismatch(FileId::Length)),
        },
{
    if bytes.len() < 8 {
        return Err(OpenError::LengthMismatch(FileId::Length));
    }
    let length: u64 = decode_u64(bytes, 0);
    proof {
        assert(bytes@.subrange(0, 8) =~= bytes@.take(8));
    }
    Ok(length)
}

/// A fault in an offsets file below `upto` is a fault of the whole.
proof fn lemma_offsets_error_stays(tables: Seq<ImageView>, count: nat, upto: int, all: int)
    requires
        0 <= upto <= all,
        offsets_error(tables, count, upto) is Some,
    ensures
        offsets_error(tables, count, all) == offsets_error(tables, count, upto),
    decreases all - upto,
{
    if upto < all {
        lemma_offsets_error_stays(tables, count, upto, all - 1);
    }
}

/// A data file below `upto` that is too small is a fault of the whole.
proof fn lemma_data_error_stays(tables: Seq<ImageView>, count: nat, upto: int, all: int)
    requires
        0 <= upto <= all,
        data_error(tables, count, upto) is Some,
    ensures
        data_error(tables, count, all) == data_error(tables, count, upto),
    decreases all - upto,
{
    if upto < all {
        lemma_data_error_stays(tables, count, upto, all - 1);
    }
}

/// Validates what was read of a store and makes its writer and its readers.
///
/// `length` is the committed record count, `keys` the contents of the keys
/// file, and `tables` has one entry per configured table, in their order.
/// The result is what `recover_from` says: the committed records in memory,
/// or the first fault.
pub fn open(cfg: Config, length: u64, keys: &[u8], tables: &Vec<TableImage>) -> (res: Result<
    (WriterFactory, ReaderFactory),
    OpenError,
>)
    requires
        0 < cfg@.segment_length <= max_segment_len(),
        tables@.len() == cfg@.tables.len(),
    ensures
        match recover_from(length, keys@, images(tables@)) {
            Ok(records) => match res {
                Ok((writer, reader)) => {
                    &&& records.wf()
                    &&& writer@ == recovered_writer(cfg, length, records)
                    &&& writer@.wf()
                    &&& reader@ == recovered_reader(cfg)
                },
                Err(_) => false,
            },
            Err(e) => res matches Err(found) && found == e,
        },
{
    let ghost shots = images(tables@);
    let ghost count = length as nat;
    let segment_len: usize = cfg.segment_length() as usize;
    let key_values = match decode_ordered(keys, length, FileId::Keys) {
        Ok(values) => values,
        Err(e) => {
            return Err(e);
        },
    };
    let (mut keys_writer, keys_reader) = new_pair(segment_len);
    append_values(&mut keys_writer, &key_values);
    let last_key: u64 = if key_values.len() == 0 {
        0
    } else {
        key_values[key_values.len() - 1]
    };
    proof {
        assert(written(keys_writer) =~= words(keys@, count));
    }
    let table_count: usize = tables.len();
    let mut writers: Vec<caos::Writer<u64>> = Vec::new();
    let mut readers: Vec<caos::Reader<u64>> = Vec::new();
    let mut max_offsets: Vec<u64> = Vec::new();
    let mut t: usize = 0;
    while t < table_count
        invariant
            t <= table_count,
            table_count == tables@.len(),
            shots == images(tables@),
            count == length,
            0 < segment_len <= max_segment_len(),
            words_error(keys@, count, FileId::Keys) is None,
            offsets_error(shots, count, t as int) is None,
            writers@.len() == t,
            readers@.len() == t,
            max_offsets@.len() == t,
            forall|i: int|
                0 <= i < t ==> {
                    &&& written(#[trigger] writers@[i]) == words(shots[i].offsets, count)
                    &&& ordered(words(shots[i].offsets, count))
                },
            forall|i: int| 0 <= i < t ==> seen(#[trigger] readers@[i]) == Seq::<u64>::empty(),
            forall|i: int|
                0 <= i < t ==> #[trigger] max_offsets@[i] == last_or_zero(
                    words(shots[i].offsets, count),
                ),
        decreases table_count - t,
    {
        let values = match decode_ordered(tables[t].offsets.as_slice(), length, FileId::Offsets(t)) {
            Ok(values) => values,
            Err(e) => {
                proof {
                    assert(shots[t as int].offsets == tables@[t as int].offsets@);
                    assert(words_error(shots[t as int].offsets, count, FileId::Offsets(t)) == Some(
                        e,
                    ));
                    assert(offsets_error(shots, count, t + 1) == Some(e));
                    lemma_offsets_error_stays(shots, count, t + 1, table_count as int);
                }
                return Err(e);
            },
        };
        proof {
            assert(shots[t as int].offsets == tables@[t as int].offsets@);
            assert(offsets_error(shots, count, t + 1) is None);
        }
        let (mut writer, reader) = new_pair(segment_len);
        let last: u64 = if values.len() == 0 {
            0
        } else {
            values[values.len() - 1]
        };
        append_values(&mut writer, &values);
        let ghost writers_before = writers@;
        let ghost readers_before = readers@;
        let ghost max_before = max_offsets@;
        max_offsets.push(last);
        writers.push(writer);
        readers.push(reader);
        proof {
            let these = words(shots[t as int].offsets, count);
            assert(values@ == these);
            assert(written(writer) =~= these);
            assert forall|i: int| 0 <= i < t + 1 implies {
                &&& written(#[trigger] writers@[i]) == words(shots[i].offsets, count)
                &&& ordered(words(shots[i].offsets, count))
            } by {
                if i < t {
                    assert(writers@[i] == writers_before[i]);
                }
            }
            assert forall|i: int| 0 <= i < t + 1 implies seen(#[trigger] readers@[i]) == Seq::<
                u64,
            >::empty() by {
                if i < t {
                    assert(readers@[i] == readers_before[i]);
                }
            }
            assert forall|i: int| 0 <= i < t + 1 implies #[trigger] max_offsets@[i]
                == last_or_zero(words(shots[i].offsets, count)) by {
                if i < t {
                    assert(max_offsets@[i] == max_before[i]);
                }
            }
        }
        t += 1;
    }
    let mut d: usize = 0;
    while d < table_count
        invariant
            d <= table_count,
            table_count == tables@.len(),
            shots == images(tables@),
            max_offsets@.len() == table_count,
            count == length,
            words_error(keys@, count, FileId::Keys) is None,
            offsets_error(shots, count, table_count as int) is None,
            data_error(shots, count, d as int) is None,
            forall|i: int|
                0 <= i < table_count ==> #[trigger] max_offsets@[i] == last_or_zero(
                    words(shots[i].offsets, count),
                ),
        decreases table_count - d,
    {
        if tables[d].data_size < max_offsets[d] {
            proof {
                assert(shots[d as int].data_size == tables@[d as int].data_size);
                assert(data_error(shots, count, d + 1) == Some(OpenError::DataTooSmall(d)));
                lemma_data_error_stays(shots, count, d + 1, table_count as int);
            }
            return Err(OpenError::DataTooSmall(d));
        }
        proof {
            assert(shots[d as int].data_size == tables@[d as int].data_size);
            assert(data_error(shots, count, d + 1) is None);
        }
        d += 1;
    }
    let ghost records = recover_from(length, keys@, shots)->Ok_0;
    let (path, names) = cfg.into_parts();
    let reader_names = clone_names(&names);
    let reader_path = path.clone();
    let writer = Writer::from_parts(
        path,
        keys_writer,
        writers,
        names,
        max_offsets,
        length,
        last_key,
    );
    let reader = Reader::from_parts(keys_reader, readers, reader_names);
    proof {
        assert(writer@.offsets =~= records.offsets);
        assert(writer@.write_offsets =~= recovered_writer(cfg, length, records).write_offsets);
        assert(reader@.offsets =~= recovered_reader(cfg).reader.offsets);
        assert(records.wf());
    }
    Ok((WriterFactory::new(writer), ReaderFactory::new(reader_path, reader)))
}

} // verus!
