//! The options that a store is opened with.

use std::path::PathBuf;
use vstd::prelude::*;

verus! {

/// `std::path::PathBuf` as an opaque value: the library carries the root
/// directory through and never looks inside.
#[verifier::external_type_specification]
#[verifier::external_body]
pub struct ExPathBuf(PathBuf);

/// `Clone` of `PathBuf`: the copy is the same path.
pub assume_specification[ <PathBuf as Clone>::clone ](path: &PathBuf) -> (res: PathBuf)
    ensures
        res == *path,
;

/// The options of a store, as plain values.
#[derive(Debug, Default, Clone, PartialEq)]
pub struct Config {
    path: PathBuf,
    create_if_not_exists: bool,
    tables: Vec<String>,
    segment_length: u32,
}

/// What a `Config` holds.
pub struct ConfigView {
    pub path: PathBuf,
    pub create_if_not_exists: bool,
    pub tables: Seq<String>,
    pub segment_length: u32,
}

impl View for Config {
    type V = ConfigView;

    closed spec fn view(&self) -> ConfigView {
        ConfigView {
            path: self.path,
            create_if_not_exists: self.create_if_not_exists,
            tables: self.tables@,
            segment_length: self.segment_length,
        }
    }
}

/// A name that is neither empty nor the name of a file of the store.
pub open spec fn usable(name: Seq<char>) -> bool {
    &&& name.len() > 0
    &&& name != "length"@
    &&& name != "new_length"@
    &&& name != "keys"@
    &&& name != "offsets"@
    &&& name != "data"@
}

/// The names can name the tables of a store: each is usable, and no two are equal.
pub open spec fn valid_tables(names: Seq<String>) -> bool {
    &&& forall|k: int| 0 <= k < names.len() ==> usable(#[trigger] names[k]@)
    &&& forall|k: int, j: int|
        0 <= k < j < names.len() ==> (#[trigger] names[k])@ != (#[trigger] names[j])@
}

impl Config {
    /// The root directory of the store.
    pub fn path(&self) -> (res: &PathBuf)
        ensures
            *res == self@.path,
    {
        &self.path
    }

    /// Whether missing directories and files are created at open.
    pub fn create_if_not_exists(&self) -> (res: bool)
        ensures
            res == self@.create_if_not_exists,
    {
        self.create_if_not_exists
    }

    /// The table names, in the order in which appends and iterators take them.
    pub fn tables(&self) -> (res: &[String])
        ensures
            res@ == self@.tables,
    {
        self.tables.as_slice()
    }

    /// The segment size of the in-memory sequences. It does not affect the files.
    pub fn segment_length(&self) -> (res: u32)
        ensures
            res == self@.segment_length,
    {
        self.segment_length
    }

    /// Tells whether the table names can name the directories of a store:
    /// none is empty or the name of a file of the store, and no two are equal.
    pub fn has_valid_tables(&self) -> (res: bool)
        ensures
            res == valid_tables(self@.tables),
    {
        let empty: String = String::new();
        let length: String = "length".to_owned();
        let new_length: String = "new_length".to_owned();
        let keys: String = "keys".to_owned();
        let offsets: String = "offsets".to_owned();
        let data: String = "data".to_owned();
        let count: usize = self.tables.len();
        let mut i: usize = 0;
        while i < count
            invariant
                i <= count,
                count == self.tables@.len(),
                empty@.len() == 0,
                length@ == "length"@,
                new_length@ == "new_length"@,
                keys@ == "keys"@,
                offsets@ == "offsets"@,
                data@ == "data"@,
                forall|k: int| 0 <= k < i ==> usable(#[trigger] self.tables@[k]@),
                forall|k: int, j: int|
                    0 <= k < j < i ==> (#[trigger] self.tables@[k])@ != (#[trigger] self.tables@[j])@,
            decreases count - i,
        {
            let name = &self.tables[i];
            if *name == empty || *name == length || *name == new_length || *name == keys || *name
                == offsets || *name == data {
                proof {
                    assert(!usable(self.tables@[i as int]@)) by {
                        if name@ == empty@ {
                            assert(name@.len() == 0);
                        }
                    }
                }
                return false;
            }
            proof {
                assert(usable(name@)) by {
                    if name@.len() == 0 {
                        assert(name@ =~= empty@);
                    }
                }
            }
            let mut j: usize = 0;
            while j < i
                invariant
                    j <= i,
                    i < count,
                    count == self.tables@.len(),
                    forall|k: int| 0 <= k < j ==> (#[trigger] self.tables@[k])@ != self.tables@[i as int]@,
                decreases i - j,
            {
                if self.tables[j] == self.tables[i] {
                    return false;
                }
                j += 1;
            }
            i += 1;
        }
        true
    }

    /// The root directory and the table names, by value.
    pub(crate) fn into_parts(self) -> (res: (PathBuf, Vec<String>))
        ensures
            res.0 == self@.path,
            res.1@ == self@.tables,
    {
        (self.path, self.tables)
    }
}

/// Why a builder could not produce its value.
#[derive(Debug, Clone, Copy, PartialEq, Eq)]
pub enum ConfigBuilderError {
    /// The named option has no default and was not set.
    UninitializedField(&'static str),
}

/// Collects the options of a `Config` one by one. None of them has a default.
#[derive(Debug, Clone)]
pub struct ConfigBuilder {
    path: Option<PathBuf>,
    create_if_not_exists: Option<bool>,
    tables: Option<Vec<String>>,
    segment_length: Option<u32>,
}

/// What a `ConfigBuilder` holds: each option, if it was set.
pub struct ConfigBuilderView {
    pub path: Option<PathBuf>,
    pub create_if_not_exists: Option<bool>,
    pub tables: Option<Seq<String>>,
    pub segment_length: Option<u32>,
}

impl View for ConfigBuilder {
    type V = ConfigBuilderView;

    closed spec fn view(&self) -> ConfigBuilderView {
        ConfigBuilderView {
            path: self.path,
            create_if_not_exists: self.create_if_not_exists,
            tables: match self.tables {
                Some(t) => Some(t@),
                None => None,
            },
            segment_length: self.segment_length,
        }
    }
}

impl Default for ConfigBuilder {
    fn default() -> (res: Self)
        ensures
            res@ == (ConfigBuilderView {
                path: None,
                create_if_not_exists: None,
                tables: None,
                segment_length: None,
            }),
    {
        ConfigBuilder { path: None, create_if_not_exists: None, tables: None, segment_length: None }
    }
}

impl ConfigBuilder {
    /// Sets the root directory.
    pub fn path(self, value: PathBuf) -> (res: Self)
        ensures
            res@ == (ConfigBuilderView { path: Some(value), ..self@ }),
    {
        ConfigBuilder { path: Some(value), ..self }
    }

    /// Sets whether missing directories and files are created at open.
    pub fn create_if_not_exists(self, value: bool) -> (res: Self)
        ensures
            res@ == (ConfigBuilderView { create_if_not_exists: Some(value), ..self@ }),
    {
        ConfigBuilder { create_if_not_exists: Some(value), ..self }
    }

    /// Sets the table names.
    pub fn tables(self, value: Vec<String>) -> (res: Self)
        ensures
            res@ == (ConfigBuilderView { tables: Some(value@), ..self@ }),
    {
        ConfigBuilder { tables: Some(value), ..self }
    }

    /// Sets the segment size of the in-memory sequences.
    pub fn segment_length(self, value: u32) -> (res: Self)
        ensures
            res@ == (ConfigBuilderView { segment_length: Some(value), ..self@ }),
    {
        ConfigBuilder { segment_length: Some(value), ..self }
    }

    /// Produces the `Config` if every option was set, and otherwise names the
    /// first one that was not, in the order path, create_if_not_exists,
    /// tables, segment_length.
    pub fn build(self) -> (res: Result<Config, ConfigBuilderError>)
        ensures
            match res {
                Ok(cfg) => {
                    &&& self@.path == Some(cfg@.path)
                    &&& self@.create_if_not_exists == Some(cfg@.create_if_not_exists)
                    &&& self@.tables == Some(cfg@.tables)
                    &&& self@.segment_length == Some(cfg@.segment_length)
                },
                Err(ConfigBuilderError::UninitializedField(name)) => {
                    if self@.path is None {
                        name@ == "path"@
                    } else if self@.create_if_not_exists is None {
                        name@ == "create_if_not_exists"@
                    } else if self@.tables is None {
                        name@ == "tables"@
                    } else {
                        self@.segment_length is None && name@ == "segment_length"@
                    }
                },
            },
    {
        let path = match self.path {
            Some(p) => p,
            None => return Err(ConfigBuilderError::UninitializedField("path")),
        };
        let create_if_not_exists = match self.create_if_not_exists {
            Some(c) => c,
            None => return Err(ConfigBuilderError::UninitializedField("create_if_not_exists")),
        };
        let tables = match self.tables {
            Some(t) => t,
            None => return Err(ConfigBuilderError::UninitializedField("tables")),
        };
        let segment_length: u32 = match self.segment_length {
            Some(s) => s,
            None => return Err(ConfigBuilderError::UninitializedField("segment_length")),
        };
        Ok(Config { path, create_if_not_exists, tables, segment_length })
    }
}

} // verus!
