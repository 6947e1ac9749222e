//! The files of a store and their reserved names.

use vstd::prelude::*;

verus! {

/// One file of the store's directory. Tables are named by their index in the configured list.
#[derive(Debug, Clone, Copy, PartialEq, Eq)]
pub enum FileId {
    /// The committed record count.
    Length,
    /// The staging file that is renamed over `Length` to commit.
    NewLength,
    /// The keys of all records.
    Keys,
    /// The end offsets of a table's payloads.
    Offsets(usize),
    /// The concatenated payloads of a table.
    Data(usize),
}

impl FileId {
    /// The table whose directory holds the file, if it is not in the store's root.
    pub fn table(&self) -> (res: Option<usize>)
        ensures
            res == match *self {
                FileId::Offsets(t) => Some(t),
                FileId::Data(t) => Some(t),
                _ => None,
            },
    {
        match self {
            FileId::Offsets(t) => Some(*t),
            FileId::Data(t) => Some(*t),
            _ => None,
        }
    }

    /// The reserved file name, relative to the root or to the table's directory.
    pub fn file_name(&self) -> (res: &'static str)
        ensures
            res@ == match *self {
                FileId::Length => "length"@,
                FileId::NewLength => "new_length"@,
                FileId::Keys => "keys"@,
                FileId::Offsets(_) => "offsets"@,
                FileId::Data(_) => "data"@,
            },
    {
        match self {
            FileId::Length => "length",
            FileId::NewLength => "new_length",
            FileId::Keys => "keys",
            FileId::Offsets(_) => "offsets",
            FileId::Data(_) => "data",
        }
    }
}

} // verus!
