//! The store as mathematics: what the files hold and which records they commit.
//!
//! The executable operations state their results over these definitions.

use vstd::prelude::*;

use crate::codec::{be_value, last_or_zero, ordered, words};
use crate::error::OpenError;
use crate::layout::FileId;

verus! {

/// The committed records as numbers: their keys and, for each table, the end
/// offsets of their payloads.
pub struct Committed {
    pub keys: Seq<u64>,
    pub offsets: Seq<Seq<u64>>,
}

impl Committed {
    /// All sequences have one length and none decreases.
    pub open spec fn wf(self) -> bool {
        &&& ordered(self.keys)
        &&& forall|t: int|
            0 <= t < self.offsets.len() ==> {
                &&& (#[trigger] self.offsets[t]).len() == self.keys.len()
                &&& ordered(self.offsets[t])
            }
    }

    /// The records with one more at the end.
    pub open spec fn push(self, key: u64, ends: Seq<u64>) -> Committed {
        Committed {
            keys: self.keys.push(key),
            offsets: Seq::new(self.offsets.len(), |t: int| self.offsets[t].push(ends[t])),
        }
    }
}

/// Where the payload of record `index` starts in a table's data file.
pub open spec fn start_of(ends: Seq<u64>, index: int) -> u64 {
    if index <= 0 {
        0
    } else {
        ends[index - 1]
    }
}

/// What recovery reads of one table: its offsets file and the size of its data file.
pub struct ImageView {
    pub offsets: Seq<u8>,
    pub data_size: int,
}

/// The two files of one table.
pub struct TableFiles {
    pub offsets: Seq<u8>,
    pub data: Seq<u8>,
}

/// The contents of the files of a store.
pub struct Disk {
    pub length: Seq<u8>,
    pub keys: Seq<u8>,
    pub tables: Seq<TableFiles>,
}

impl Disk {
    /// What recovery reads of each table.
    pub open spec fn images(self) -> Seq<ImageView> {
        Seq::new(
            self.tables.len(),
            |t: int|
                ImageView {
                    offsets: self.tables[t].offsets,
                    data_size: self.tables[t].data.len() as int,
                },
        )
    }
}

/// The committed record count that a length file states, if it is long enough
/// to state one.
pub open spec fn stated_length(length: Seq<u8>) -> Option<u64> {
    if length.len() < 8 {
        None
    } else {
        Some(be_value(length.take(8)) as u64)
    }
}

/// What is wrong with a file of numbers of which `count` are committed, if anything.
pub open spec fn words_error(bytes: Seq<u8>, count: nat, file: FileId) -> Option<OpenError> {
    if bytes.len() < 8 * count {
        Some(OpenError::LengthMismatch(file))
    } else if !ordered(words(bytes, count)) {
        Some(OpenError::OutOfOrder(file))
    } else {
        None
    }
}

/// The first fault among the offsets files of the tables below `upto`, in table order.
pub open spec fn offsets_error(tables: Seq<ImageView>, count: nat, upto: int) -> Option<OpenError>
    decreases upto,
{
    if upto <= 0 {
        None
    } else {
        match offsets_error(tables, count, upto - 1) {
            Some(e) => Some(e),
            None => words_error(tables[upto - 1].offsets, count, FileId::Offsets((upto - 1) as usize)),
        }
    }
}

/// The first table below `upto` whose data file ends before its last offset.
pub open spec fn data_error(tables: Seq<ImageView>, count: nat, upto: int) -> Option<OpenError>
    decreases upto,
{
    if upto <= 0 {
        None
    } else {
        match data_error(tables, count, upto - 1) {
            Some(e) => Some(e),
            None => if tables[upto - 1].data_size < last_or_zero(words(tables[upto - 1].offsets, count)) {
                Some(OpenError::DataTooSmall((upto - 1) as usize))
            } else {
                None
            },
        }
    }
}

/// What recovery makes of the keys file and the tables, given the committed
/// record count: the records, or the first fault in the order keys, offsets
/// of each table, data of each table.
pub open spec fn recover_from(length: u64, keys: Seq<u8>, tables: Seq<ImageView>) -> Result<
    Committed,
    OpenError,
> {
    let count = length as nat;
    match words_error(keys, count, FileId::Keys) {
        Some(e) => Err(e),
        None => match offsets_error(tables, count, tables.len() as int) {
            Some(e) => Err(e),
            None => match data_error(tables, count, tables.len() as int) {
                Some(e) => Err(e),
                None => Ok(
                    Committed {
                        keys: words(keys, count),
                        offsets: Seq::new(tables.len(), |t: int| words(tables[t].offsets, count)),
                    },
                ),
            },
        },
    }
}

/// What recovery makes of a store's files.
pub open spec fn recover(disk: Disk) -> Result<Committed, OpenError> {
    match stated_length(disk.length) {
        None => Err(OpenError::LengthMismatch(FileId::Length)),
        Some(length) => recover_from(length, disk.keys, disk.images()),
    }
}

/// The payload of record `index` in table `table`, as the data file holds it.
pub open spec fn payload(disk: Disk, records: Committed, table: int, index: int) -> Seq<u8> {
    disk.tables[table].data.subrange(
        start_of(records.offsets[table], index) as int,
        records.offsets[table][index] as int,
    )
}

} // verus!
