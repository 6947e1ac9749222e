//! The options of a range iteration.

use vstd::prelude::*;

verus! {

/// The buffer size of the sequential reader when none is given: 512 KiB.
pub const DEFAULT_BUFFER_SIZE: usize = 524288;

/// The read-ahead of the sequential reader when none is given.
pub const DEFAULT_CONCURRENCY: usize = 8;

/// The key range of an iteration and how the payloads of one table, if any,
/// are streamed along with the keys.
#[derive(Debug, Default, Clone, Copy, PartialEq)]
pub struct IterParams<'input> {
    from: u64,
    to: u64,
    table: Option<&'input str>,
    buffer_size: usize,
    concurrency: usize,
}

/// What an `IterParams` holds.
pub struct IterParamsView {
    pub from: u64,
    pub to: u64,
    pub table: Option<Seq<char>>,
    pub buffer_size: usize,
    pub concurrency: usize,
}

impl<'input> View for IterParams<'input> {
    type V = IterParamsView;

    closed spec fn view(&self) -> IterParamsView {
        IterParamsView {
            from: self.from,
            to: self.to,
            table: match self.table {
                Some(name) => Some(name@),
                None => None,
            },
            buffer_size: self.buffer_size,
            concurrency: self.concurrency,
        }
    }
}

impl<'input> IterParams<'input> {
    /// The lower end of the key range, inclusive.
    pub fn from(&self) -> (res: u64)
        ensures
            res == self@.from,
    {
        self.from
    }

    /// The upper end of the key range.
    pub fn to(&self) -> (res: u64)
        ensures
            res == self@.to,
    {
        self.to
    }

    /// The table whose payloads are streamed, if any.
    pub fn table(&self) -> (res: Option<&'input str>)
        ensures
            match res {
                Some(name) => self@.table == Some(name@),
                None => self@.table is None,
            },
    {
        self.table
    }

    /// The buffer size of the sequential reader of the streamed table.
    pub fn buffer_size(&self) -> (res: usize)
        ensures
            res == self@.buffer_size,
    {
        self.buffer_size
    }

    /// The read-ahead of the sequential reader of the streamed table.
    pub fn concurrency(&self) -> (res: usize)
        ensures
            res == self@.concurrency,
    {
        self.concurrency
    }
}

/// Why a builder could not produce its value.
#[derive(Debug, Clone, Copy, PartialEq, Eq)]
pub enum IterParamsBuilderError {
    /// The named option has no default and was not set.
    UninitializedField(&'static str),
}

/// Collects the options of an `IterParams` one by one. The two ends of the
/// range must be set; the rest has defaults.
#[derive(Debug, Clone, Copy)]
pub struct IterParamsBuilder<'input> {
    from: Option<u64>,
    to: Option<u64>,
    table: Option<Option<&'input str>>,
    buffer_size: Option<usize>,
    concurrency: Option<usize>,
}

/// What an `IterParamsBuilder` holds: each option, if it was set.
pub struct IterParamsBuilderView {
    pub from: Option<u64>,
    pub to: Option<u64>,
    pub table: Option<Option<Seq<char>>>,
    pub buffer_size: Option<usize>,
    pub concurrency: Option<usize>,
}

impl IterParamsBuilderView {
    /// The options that `build` produces once both ends of the range are set.
    pub open spec fn built(self) -> IterParamsView {
        IterParamsView {
            from: self.from->0,
            to: self.to->0,
            table: match self.table {
                Some(t) => t,
                None => None,
            },
            buffer_size: match self.buffer_size {
                Some(b) => b,
                None => DEFAULT_BUFFER_SIZE,
            },
            concurrency: match self.concurrency {
                Some(c) => c,
                None => DEFAULT_CONCURRENCY,
            },
        }
    }
}

impl<'input> View for IterParamsBuilder<'input> {
    type V = IterParamsBuilderView;

    closed spec fn view(&self) -> IterParamsBuilderView {
        IterParamsBuilderView {
            from: self.from,
            to: self.to,
            table: match self.table {
                Some(Some(name)) => Some(Some(name@)),
                Some(None) => Some(None),
                None => None,
            },
            buffer_size: self.buffer_size,
            concurrency: self.concurrency,
        }
    }
}

impl<'input> Default for IterParamsBuilder<'input> {
    fn default() -> (res: Self)
        ensures
            res@ == (IterParamsBuilderView {
                from: None,
                to: None,
                table: None,
                buffer_size: None,
                concurrency: None,
            }),
    {
        IterParamsBuilder { from: None, to: None, table: None, buffer_size: None, concurrency: None }
    }
}

impl<'input> IterParamsBuilder<'input> {
    /// Sets the lower end of the key range.
    pub fn from(self, value: u64) -> (res: Self)
        ensures
            res@ == (IterParamsBuilderView { from: Some(value), ..self@ }),
    {
        IterParamsBuilder { from: Some(value), ..self }
    }

    /// Sets the upper end of the key range.
    pub fn to(self, value: u64) -> (res: Self)
        ensures
            res@ == (IterParamsBuilderView { to: Some(value), ..self@ }),
    {
        IterParamsBuilder { to: Some(value), ..self }
    }

    /// Sets the table whose payloads are streamed, or none.
    pub fn table(self, value: Option<&'input str>) -> (res: Self)
        ensures
            res@ == (IterParamsBuilderView {
                table: Some(
                    match value {
                        Some(name) => Some(name@),
                        None => None,
                    },
                ),
                ..self@
            }),
    {
        IterParamsBuilder { table: Some(value), ..self }
    }

    /// Sets the buffer size of the sequential reader.
    pub fn buffer_size(self, value: usize) -> (res: Self)
        ensures
            res@ == (IterParamsBuilderView { buffer_size: Some(value), ..self@ }),
    {
        IterParamsBuilder { buffer_size: Some(value), ..self }
    }

    /// Sets the read-ahead of the sequential reader.
    pub fn concurrency(self, value: usize) -> (res: Self)
        ensures
            res@ == (IterParamsBuilderView { concurrency: Some(value), ..self@ }),
    {
        IterParamsBuilder { concurrency: Some(value), ..self }
    }

    /// Produces the options if both ends of the range were set, and otherwise
    /// names the first end that was not.
    pub fn build(self) -> (res: Result<IterParams<'input>, IterParamsBuilderError>)
        ensures
            match res {
                Ok(params) => self@.from is Some && self@.to is Some && params@ == self@.built(),
                Err(IterParamsBuilderError::UninitializedField(name)) => {
                    if self@.from is None {
                        name@ == "from"@
                    } else {
                        self@.to is None && name@ == "to"@
                    }
                },
            },
    {
        let from: u64 = match self.from {
            Some(f) => f,
            None => return Err(IterParamsBuilderError::UninitializedField("from")),
        };
        let to: u64 = match self.to {
            Some(t) => t,
            None => return Err(IterParamsBuilderError::UninitializedField("to")),
        };
        let table = match self.table {
            Some(t) => t,
            None => None,
        };
        let buffer_size: usize = match self.buffer_size {
            Some(b) => b,
            None => DEFAULT_BUFFER_SIZE,
        };
        let concurrency: usize = match self.concurrency {
            Some(c) => c,
            None => DEFAULT_CONCURRENCY,
        };
        Ok(IterParams { from, to, table, buffer_size, concurrency })
    }
}

} // verus!
