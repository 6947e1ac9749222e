//! The single writer of a store and the ordered commit of an append.
//!
//! An append is committed by four groups of file operations, each of which
//! must be durable before the next begins: the payloads, the offsets, the
//! key, and the swap of the length file. The writer hands these out one at
//! a time; the caller carries each one out and reports how it went. Only
//! after the swap does the writer publish the record in memory.

use std::path::PathBuf;
use vstd::prelude::*;

use crate::codec::{be64, encode_u64, last_or_zero, ordered};
use crate::error::WriteError;
use crate::layout::FileId;
use crate::model::Committed;
use crate::seq::{append_values, written};

verus! {

/// The group of file operations that is in flight, if any.
#[derive(Debug, Clone, Copy, PartialEq, Eq)]
pub enum Stage {
    /// No append is in flight.
    Idle,
    /// The payloads are being written to the data files.
    Payloads,
    /// The new end offsets are being written to the offsets files.
    Offsets,
    /// The key is being written to the keys file.
    Key,
    /// The length file is being replaced.
    Length,
}

/// One durable write: `data` goes to `file` at byte position `pos`, followed
/// by a data sync.
#[derive(Debug, Clone, PartialEq, Eq)]
pub struct FileWrite {
    pub file: FileId,
    pub pos: u64,
    pub data: Vec<u8>,
}

/// A `FileWrite` with its bytes as a sequence.
pub struct WriteView {
    pub file: FileId,
    pub pos: u64,
    pub data: Seq<u8>,
}

impl View for FileWrite {
    type V = WriteView;

    open spec fn view(&self) -> WriteView {
        WriteView { file: self.file, pos: self.pos, data: self.data@ }
    }
}

/// What the caller is to do next for the append in flight.
#[derive(Debug, Clone, PartialEq, Eq)]
pub enum Step {
    /// Carry out all of these writes, in any order or at once, and wait until
    /// each is durable.
    Write(Vec<FileWrite>),
    /// Remove any stale staging file, create it anew with exactly these
    /// bytes, sync and close it, and rename it over the length file.
    Swap(Vec<u8>),
    /// Nothing is left to do: the record is committed and published.
    Finished,
}

/// A `Step` with its bytes as sequences.
pub enum StepView {
    Write(Seq<WriteView>),
    Swap(Seq<u8>),
    Finished,
}

impl View for Step {
    type V = StepView;

    open spec fn view(&self) -> StepView {
        match *self {
            Step::Write(writes) => StepView::Write(Seq::new(writes@.len(), |i: int| writes@[i]@)),
            Step::Swap(bytes) => StepView::Swap(bytes@),
            Step::Finished => StepView::Finished,
        }
    }
}

/// The payloads as byte sequences.
pub open spec fn contents(values: Seq<Vec<u8>>) -> Seq<Seq<u8>> {
    Seq::new(values.len(), |t: int| values[t]@)
}

/// The end offsets of a record whose payloads start at `starts`.
pub open spec fn new_offsets(starts: Seq<u64>, values: Seq<Seq<u8>>) -> Seq<u64> {
    Seq::new(values.len(), |t: int| (starts[t] + values[t].len()) as u64)
}

/// The first group: each payload goes to the end of its table's data.
pub open spec fn payload_writes(starts: Seq<u64>, values: Seq<Seq<u8>>) -> Seq<WriteView> {
    Seq::new(
        values.len(),
        |t: int| WriteView { file: FileId::Data(t as usize), pos: starts[t], data: values[t] },
    )
}

/// The second group: each table's new end offset goes behind the committed offsets.
pub open spec fn offset_writes(length: u64, ends: Seq<u64>) -> Seq<WriteView> {
    Seq::new(
        ends.len(),
        |t: int|
            WriteView {
                file: FileId::Offsets(t as usize),
                pos: (8 * length) as u64,
                data: be64(ends[t]),
            },
    )
}

/// The third group: the key goes behind the committed keys.
pub open spec fn key_write(length: u64, key: u64) -> Seq<WriteView> {
    seq![WriteView { file: FileId::Keys, pos: (8 * length) as u64, data: be64(key) }]
}

/// What a writer holds.
pub struct WriterView {
    pub path: PathBuf,
    pub names: Seq<String>,
    /// The keys published so far.
    pub keys: Seq<u64>,
    /// The end offsets published so far, by table.
    pub offsets: Seq<Seq<u64>>,
    /// Where the next payload of each table goes.
    pub write_offsets: Seq<u64>,
    /// The number of committed records.
    pub length: u64,
    /// The key of the last committed record, or zero.
    pub last_key: u64,
    pub stage: Stage,
    /// The key of the append in flight.
    pub pending_key: u64,
    /// The end offsets of the append in flight.
    pub pending_offsets: Seq<u64>,
}

impl WriterView {
    /// The published records.
    pub open spec fn records(self) -> Committed {
        Committed { keys: self.keys, offsets: self.offsets }
    }

    /// The invariant of a writer.
    pub open spec fn wf(self) -> bool {
        &&& self.names.len() <= usize::MAX
        &&& self.offsets.len() == self.names.len()
        &&& self.write_offsets.len() == self.names.len()
        &&& self.keys.len() == self.length
        &&& self.last_key == last_or_zero(self.keys)
        &&& self.records().wf()
        &&& forall|t: int|
            0 <= t < self.names.len() ==> #[trigger] self.write_offsets[t] == last_or_zero(
                self.offsets[t],
            )
        &&& self.stage != Stage::Idle ==> {
            &&& self.pending_offsets.len() == self.names.len()
            &&& self.pending_key >= self.last_key
            &&& 8 * self.length + 8 <= u64::MAX
            &&& forall|t: int|
                0 <= t < self.names.len() ==> #[trigger] self.pending_offsets[t]
                    >= self.write_offsets[t]
        }
    }

    /// Whether a record with this key and these payloads can be appended:
    /// the key is not below the last one, and no offset leaves 64 bits.
    pub open spec fn accepts(self, key: u64, values: Seq<Seq<u8>>) -> bool {
        &&& key >= self.last_key
        &&& 8 * self.length + 8 <= u64::MAX
        &&& forall|t: int|
            0 <= t < values.len() && t < self.write_offsets.len() ==> self.write_offsets[t] + (
            #[trigger] values[t]).len() <= u64::MAX
    }

    /// The writer once the append in flight is committed and published.
    pub open spec fn published(self) -> WriterView {
        WriterView {
            keys: self.keys.push(self.pending_key),
            offsets: Seq::new(
                self.offsets.len(),
                |t: int| self.offsets[t].push(self.pending_offsets[t]),
            ),
            write_offsets: self.pending_offsets,
            length: (self.length + 1) as u64,
            last_key: self.pending_key,
            stage: Stage::Idle,
            pending_offsets: Seq::empty(),
            ..self
        }
    }

    /// The state and the step that follow when the group in flight has
    /// completed.
    pub open spec fn advanced(self) -> (WriterView, StepView) {
        match self.stage {
            Stage::Idle => (self, StepView::Finished),
            Stage::Payloads => (
                WriterView { stage: Stage::Offsets, ..self },
                StepView::Write(offset_writes(self.length, self.pending_offsets)),
            ),
            Stage::Offsets => (
                WriterView { stage: Stage::Key, ..self },
                StepView::Write(key_write(self.length, self.pending_key)),
            ),
            Stage::Key => (
                WriterView { stage: Stage::Length, ..self },
                StepView::Swap(be64((self.length + 1) as u64)),
            ),
            Stage::Length => (self.published(), StepView::Finished),
        }
    }
}

/// Adding a value that is not below the last one keeps a sequence in order.
pub proof fn lemma_push_ordered(s: Seq<u64>, value: u64)
    requires
        ordered(s),
        value >= last_or_zero(s),
    ensures
        ordered(s.push(value)),
        last_or_zero(s.push(value)) == value,
{
    let longer = s.push(value);
    assert forall|i: int, j: int| 0 <= i <= j < longer.len() implies longer[i] <= longer[j] by {
        if j < s.len() {
            assert(longer[i] == s[i] && longer[j] == s[j]);
        } else if i < s.len() {
            assert(longer[i] == s[i]);
            assert(s[i] <= s[s.len() - 1]);
        }
    }
}

/// Publishing the append in flight keeps the writer's invariant.
pub proof fn lemma_published_wf(view: WriterView)
    requires
        view.wf(),
        view.stage != Stage::Idle,
    ensures
        view.published().wf(),
{
    let after = view.published();
    lemma_push_ordered(view.keys, view.pending_key);
    assert forall|t: int| 0 <= t < after.offsets.len() implies {
        &&& (#[trigger] after.offsets[t]).len() == after.keys.len()
        &&& ordered(after.offsets[t])
    } by {
        assert(view.records().offsets[t].len() == view.keys.len());
        assert(view.write_offsets[t] == last_or_zero(view.offsets[t]));
        assert(view.pending_offsets[t] >= view.write_offsets[t]);
        lemma_push_ordered(view.offsets[t], view.pending_offsets[t]);
    }
    assert forall|t: int| 0 <= t < after.names.len() implies #[trigger] after.write_offsets[t]
        == last_or_zero(after.offsets[t]) by {
        assert(view.write_offsets[t] == last_or_zero(view.offsets[t]));
        assert(view.pending_offsets[t] >= view.write_offsets[t]);
        assert(ordered(view.records().offsets[t]));
        lemma_push_ordered(view.offsets[t], view.pending_offsets[t]);
    }
}

/// The writing side of a store. There is exactly one per store.
pub struct Writer {
    path: PathBuf,
    keys: caos::Writer<u64>,
    table_offsets: Vec<caos::Writer<u64>>,
    table_names: Vec<String>,
    write_offsets: Vec<u64>,
    length: u64,
    last_key: u64,
    stage: Stage,
    pending_key: u64,
    pending_offsets: Vec<u64>,
}

impl View for Writer {
    type V = WriterView;

    closed spec fn view(&self) -> WriterView {
        WriterView {
            path: self.path,
            names: self.table_names@,
            keys: written(self.keys),
            offsets: Seq::new(self.table_offsets@.len(), |t: int| written(self.table_offsets@[t])),
            write_offsets: self.write_offsets@,
            length: self.length,
            last_key: self.last_key,
            stage: self.stage,
            pending_key: self.pending_key,
            pending_offsets: self.pending_offsets@,
        }
    }
}

/// Appends one value to each of the sequences.
fn publish_offsets(sequences: &mut Vec<caos::Writer<u64>>, ends: &Vec<u64>)
    requires
        ends@.len() == old(sequences)@.len(),
    ensures
        final(sequences)@.len() == old(sequences)@.len(),
        forall|t: int|
            0 <= t < ends@.len() ==> written(#[trigger] final(sequences)@[t]) == written(
                old(sequences)@[t],
            ).push(ends@[t]),
{
    let count: usize = sequences.len();
    let mut t: usize = 0;
    while t < count
        invariant
            t <= count,
            count == sequences@.len(),
            count == ends@.len(),
            count == old(sequences)@.len(),
            forall|i: int|
                0 <= i < t ==> written(#[trigger] sequences@[i]) == written(
                    old(sequences)@[i],
                ).push(ends@[i]),
            forall|i: int| t <= i < count ==> #[trigger] sequences@[i] == old(sequences)@[i],
        decreases count - t,
    {
        let mut one: Vec<u64> = Vec::new();
        one.push(ends[t]);
        let ghost before = sequences@;
        append_values(&mut sequences[t], &one);
        proof {
            assert(one@ =~= seq![ends@[t as int]]);
            assert(written(before[t as int]) + one@ =~= written(before[t as int]).push(
                ends@[t as int],
            ));
        }
        t += 1;
    }
}

impl Writer {
    /// The invariant of a writer: see `WriterView::wf`.
    pub open spec fn wf(&self) -> bool {
        self@.wf()
    }

    /// Makes the writer of a store from what recovery found.
    pub(crate) fn from_parts(
        path: PathBuf,
        keys: caos::Writer<u64>,
        table_offsets: Vec<caos::Writer<u64>>,
        table_names: Vec<String>,
        write_offsets: Vec<u64>,
        length: u64,
        last_key: u64,
    ) -> (res: Writer)
        ensures
            res@ == (WriterView {
                path,
                names: table_names@,
                keys: written(keys),
                offsets: Seq::new(table_offsets@.len(), |t: int| written(table_offsets@[t])),
                write_offsets: write_offsets@,
                length,
                last_key,
                stage: Stage::Idle,
                pending_key: 0,
                pending_offsets: Seq::empty(),
            }),
    {
        Writer {
            path,
            keys,
            table_offsets,
            table_names,
            write_offsets,
            length,
            last_key,
            stage: Stage::Idle,
            pending_key: 0,
            pending_offsets: Vec::new(),
        }
    }

    /// The root directory of the store.
    pub fn path(&self) -> (res: &PathBuf)
        ensures
            *res == self@.path,
    {
        &self.path
    }

    /// The table names, in the order in which an append takes its values.
    pub fn table_names(&self) -> (res: &[String])
        ensures
            res@ == self@.names,
    {
        self.table_names.as_slice()
    }

    /// The number of committed records.
    pub fn length(&self) -> (res: u64)
        ensures
            res == self@.length,
    {
        self.length
    }

    /// The key of the last committed record, if there is one.
    pub fn last_key(&self) -> (res: Option<u64>)
        requires
            self.wf(),
        ensures
            res == (if self@.keys.len() == 0 {
                None
            } else {
                Some(self@.keys.last())
            }),
    {
        if self.length == 0 {
            None
        } else {
            Some(self.last_key)
        }
    }

    /// The group of file operations that is in flight.
    pub fn stage(&self) -> (res: Stage)
        ensures
            res == self@.stage,
    {
        self.stage
    }

    /// Tells whether `append` may be called with this record.
    pub fn accepts(&self, key: u64, values: &Vec<Vec<u8>>) -> (res: bool)
        requires
            self.wf(),
        ensures
            res == (values@.len() == self@.names.len() ==> self@.accepts(key, contents(values@))),
    {
        if values.len() != self.table_names.len() {
            return true;
        }
        if key < self.last_key || self.length > (u64::MAX - 8) / 8 {
            return false;
        }
        let count: usize = values.len();
        let mut t: usize = 0;
        while t < count
            invariant
                t <= count,
                count == values@.len(),
                count == self.write_offsets@.len(),
                count == self@.names.len(),
                key >= self@.last_key,
                8 * self@.length + 8 <= u64::MAX,
                forall|i: int|
                    0 <= i < t ==> self.write_offsets@[i] + (#[trigger] contents(
                        values@,
                    )[i]).len() <= u64::MAX,
            decreases count - t,
        {
            let room: u64 = u64::MAX - self.write_offsets[t];
            if values[t].len() as u64 > room {
                proof {
                    assert(contents(values@)[t as int].len() == values@[t as int]@.len());
                    assert(self@.write_offsets[t as int] + contents(values@)[t as int].len()
                        > u64::MAX);
                }
                return false;
            }
            t += 1;
        }
        true
    }

    /// Begins the append of a record: one value per table, in table order.
    ///
    /// Returns the first group of file operations, the payload writes, and
    /// keeps the rest of the commit in flight. Nothing is published yet. An
    /// append that was in flight before is given up.
    pub fn append(&mut self, key: u64, values: Vec<Vec<u8>>) -> (res: Result<Step, WriteError>)
        requires
            old(self).wf(),
            values@.len() == old(self)@.names.len() ==> old(self)@.accepts(key, contents(values@)),
        ensures
            final(self).wf(),
            match res {
                Ok(step) => {
                    &&& values@.len() == old(self)@.names.len()
                    &&& step@ == StepView::Write(
                        payload_writes(old(self)@.write_offsets, contents(values@)),
                    )
                    &&& final(self)@ == (WriterView {
                        stage: Stage::Payloads,
                        pending_key: key,
                        pending_offsets: new_offsets(old(self)@.write_offsets, contents(values@)),
                        ..old(self)@
                    })
                },
                Err(WriteError::Arity) => {
                    &&& values@.len() != old(self)@.names.len()
                    &&& final(self)@ == old(self)@
                },
                Err(_) => false,
            },
    {
        let mut values = values;
        if values.len() != self.table_names.len() {
            return Err(WriteError::Arity);
        }
        let ghost given = contents(values@);
        let count: usize = values.len();
        let mut writes: Vec<FileWrite> = Vec::new();
        let mut ends: Vec<u64> = Vec::new();
        let mut t: usize = 0;
        while t < count
            invariant
                t <= count,
                count == values@.len(),
                count == given.len(),
                count == self.write_offsets@.len(),
                *self == *old(self),
                old(self)@.accepts(key, given),
                forall|i: int| t <= i < count ==> (#[trigger] values@[i])@ == given[i],
                writes@.len() == t,
                ends@.len() == t,
                forall|i: int|
                    0 <= i < t ==> (#[trigger] writes@[i])@ == payload_writes(
                        self.write_offsets@,
                        given,
                    )[i],
                forall|i: int|
                    0 <= i < t ==> #[trigger] ends@[i] == new_offsets(self.write_offsets@, given)[i],
            decreases count - t,
        {
            let mut data: Vec<u8> = Vec::new();
            core::mem::swap(&mut data, &mut values[t]);
            let start: u64 = self.write_offsets[t];
            assert(given[t as int].len() == data@.len());
            let end: u64 = start + data.len() as u64;
            ends.push(end);
            writes.push(FileWrite { file: FileId::Data(t), pos: start, data });
            t += 1;
        }
        self.stage = Stage::Payloads;
        self.pending_key = key;
        self.pending_offsets = ends;
        let step = Step::Write(writes);
        proof {
            assert(self.pending_offsets@ =~= new_offsets(old(self)@.write_offsets, given));
            assert(step@->Write_0 =~= payload_writes(old(self)@.write_offsets, given));
        }
        Ok(step)
    }

    /// Takes the outcome of the group of file operations that was handed out
    /// last and returns what is to be done next.
    ///
    /// After a failure the append is given up: nothing was published, and the
    /// files commit what they committed before. After the last group the
    /// record is published in memory: the write offsets and the length are
    /// brought up to date, then the offsets are published, then the key.
    pub fn advance(&mut self, done: bool) -> (res: Result<Step, WriteError>)
        requires
            old(self).wf(),
        ensures
            final(self).wf(),
            match res {
                Ok(step) => {
                    &&& done
                    &&& final(self)@ == old(self)@.advanced().0
                    &&& step@ == old(self)@.advanced().1
                },
                Err(WriteError::Io) => !done && final(self)@ == (WriterView {
                    stage: Stage::Idle,
                    ..old(self)@
                }),
                Err(_) => false,
            },
    {
        if !done {
            self.stage = Stage::Idle;
            return Err(WriteError::Io);
        }
        match self.stage {
            Stage::Idle => Ok(Step::Finished),
            Stage::Payloads => {
                let position: u64 = self.length * 8;
                let count: usize = self.pending_offsets.len();
                let mut writes: Vec<FileWrite> = Vec::new();
                let mut t: usize = 0;
                while t < count
                    invariant
                        t <= count,
                        count == self.pending_offsets@.len(),
                        *self == *old(self),
                        position == 8 * self.length,
                        writes@.len() == t,
                        forall|i: int|
                            0 <= i < t ==> (#[trigger] writes@[i])@ == offset_writes(
                                self.length,
                                self.pending_offsets@,
                            )[i],
                    decreases count - t,
                {
                    let data = encode_u64(self.pending_offsets[t]);
                    writes.push(FileWrite { file: FileId::Offsets(t), pos: position, data });
                    t += 1;
                }
                self.stage = Stage::Offsets;
                let step = Step::Write(writes);
                proof {
                    assert(step@->Write_0 =~= offset_writes(
                        old(self)@.length,
                        old(self)@.pending_offsets,
                    ));
                }
                Ok(step)
            },
            Stage::Offsets => {
                let mut writes: Vec<FileWrite> = Vec::new();
                writes.push(
                    FileWrite {
                        file: FileId::Keys,
                        pos: self.length * 8,
                        data: encode_u64(self.pending_key),
                    },
                );
                self.stage = Stage::Key;
                let step = Step::Write(writes);
                proof {
                    assert(step@->Write_0 =~= key_write(old(self)@.length, old(self)@.pending_key));
                }
                Ok(step)
            },
            Stage::Key => {
                let bytes = encode_u64(self.length + 1);
                self.stage = Stage::Length;
                Ok(Step::Swap(bytes))
            },
            Stage::Length => {
                core::mem::swap(&mut self.write_offsets, &mut self.pending_offsets);
                self.pending_offsets = Vec::new();
                self.length = self.length + 1;
                publish_offsets(&mut self.table_offsets, &self.write_offsets);
                let mut one: Vec<u64> = Vec::new();
                one.push(self.pending_key);
                append_values(&mut self.keys, &one);
                self.last_key = self.pending_key;
                self.stage = Stage::Idle;
                proof {
                    let before = old(self)@;
                    let after = self@;
                    assert(one@ =~= seq![before.pending_key]);
                    assert(after.keys =~= before.keys.push(before.pending_key));
                    assert(after.offsets =~= before.published().offsets);
                    assert(after == before.published());
                    lemma_published_wf(before);
                }
                Ok(Step::Finished)
            },
        }
    }
}

/// The unique right to make the writer of a store that was opened.
pub struct WriterFactory {
    writer: Writer,
}

impl View for WriterFactory {
    type V = WriterView;

    closed spec fn view(&self) -> WriterView {
        self.writer@
    }
}

impl WriterFactory {
    /// Wraps a writer that is yet to be handed out.
    pub(crate) fn new(writer: Writer) -> (res: WriterFactory)
        ensures
            res@ == writer@,
    {
        WriterFactory { writer }
    }

    /// The root directory of the store.
    pub fn path(&self) -> (res: &PathBuf)
        ensures
            *res == self@.path,
    {
        self.writer.path()
    }

    /// The table names, in the order in which an append takes its values.
    pub fn table_names(&self) -> (res: &[String])
        ensures
            res@ == self@.names,
    {
        self.writer.table_names()
    }

    /// Hands out the writer.
    pub fn make(self) -> (res: Writer)
        ensures
            res@ == self@,
    {
        self.writer
    }
}

} // verus!
