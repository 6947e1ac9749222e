//! Range iteration: keys in storage order, with the byte extent of each
//! record's payload in every table.

use vstd::prelude::*;

use crate::codec::ordered;
use crate::error::{IterError, ReadError};
use crate::model::start_of;
use crate::reader::{find_table, table_index, Extent};
use crate::seq::{extends, iter_from, next_value, pending, seen};

verus! {

/// Walks the end offsets of one table and turns them into extents.
pub struct IoVecIter {
    inner: caos::Iter<u64>,
    start: u64,
}

/// What an `IoVecIter` holds: where the next payload starts, and the end
/// offsets that are yet to come.
pub struct IoVecView {
    pub start: u64,
    pub ends: Seq<u64>,
}

impl IoVecView {
    /// The extent of the next payload.
    pub open spec fn head(self) -> Extent {
        Extent { pos: self.start, len: (self.ends[0] - self.start) as u64 }
    }

    /// The walk after the next payload.
    pub open spec fn tail(self) -> IoVecView {
        IoVecView { start: self.ends[0], ends: self.ends.skip(1) }
    }

    /// At least `count` payloads are to come, and no offset lies below the one before it.
    pub open spec fn covers(self, count: nat) -> bool {
        &&& self.ends.len() >= count
        &&& ordered(self.ends)
        &&& self.ends.len() > 0 ==> self.start <= self.ends[0]
    }
}

impl View for IoVecIter {
    type V = IoVecView;

    closed spec fn view(&self) -> IoVecView {
        IoVecView { start: self.start, ends: pending(self.inner) }
    }
}

/// The walk over `ends` that begins with record `pos`.
pub open spec fn walk_from(ends: Seq<u64>, pos: int) -> IoVecView {
    IoVecView { start: start_of(ends, pos), ends: ends.skip(pos) }
}

impl IoVecIter {
    /// Starts a walk at record `pos` of a table's offsets.
    ///
    /// The handle looks at what is published now. If that holds at least
    /// `pos` offsets, the walk begins where record `pos` begins.
    pub fn from_caos_and_position(offsets: &mut caos::Reader<u64>, pos: usize) -> (res: Option<
        IoVecIter,
    >)
        ensures
            extends(seen(*old(offsets)), seen(*final(offsets))),
            pos <= seen(*final(offsets)).len() ==> match res {
                Some(walk) => walk@ == walk_from(seen(*final(offsets)), pos as int),
                None => false,
            },
    {
        if pos == 0 {
            let inner = iter_from(offsets, 0);
            proof {
                assert(seen(*offsets).skip(0) =~= seen(*offsets));
            }
            Some(IoVecIter { inner, start: 0 })
        } else {
            let mut inner = iter_from(offsets, pos - 1);
            let ghost all = seen(*offsets);
            match next_value(&mut inner) {
                Some(start) => {
                    proof {
                        if pos <= all.len() {
                            assert(all.skip(pos - 1).skip(1) =~= all.skip(pos as int));
                        }
                    }
                    Some(IoVecIter { inner, start })
                },
                None => None,
            }
        }
    }

    /// Yields the extent of the next payload and moves on.
    ///
    /// Yields nothing if the next end offset lies below the start, which
    /// never happens in an ordered table. Once no offset is pending the
    /// result is left open.
    pub fn next(&mut self) -> (res: Option<Extent>)
        ensures
            old(self)@.ends.len() == 0 ==> final(self)@.ends.len() == 0,
            old(self)@.ends.len() > 0 ==> {
                &&& final(self)@.ends == old(self)@.ends.skip(1)
                &&& if old(self)@.start <= old(self)@.ends[0] {
                    res == Some(old(self)@.head()) && final(self)@.start == old(self)@.ends[0]
                } else {
                    res is None && final(self)@.start == old(self)@.start
                }
            },
    {
        let end: u64 = match next_value(&mut self.inner) {
            Some(end) => end,
            None => return None,
        };
        if end < self.start {
            return None;
        }
        let extent = Extent { pos: self.start, len: end - self.start };
        self.start = end;
        Some(extent)
    }
}

/// One step of a range iteration.
#[derive(Debug, Clone, Copy, PartialEq, Eq)]
pub struct Entry {
    /// The key of the record before, or zero in front of the first record.
    pub prev_key: u64,
    /// The key of this record.
    pub key: u64,
    /// Where the payload of the streamed table lies, if a table is streamed:
    /// the next `len` bytes of the sequential reader.
    pub stream: Option<Extent>,
}

/// What a range iterator holds.
pub struct IterView {
    pub names: Seq<String>,
    /// Whether a step has been asked for.
    pub started: bool,
    /// The key of the record that was yielded last, or of the one in front
    /// of the range.
    pub current_key: u64,
    /// Where the iteration ends: no step is taken once `current_key` has reached it.
    pub to: u64,
    /// The keys that are yet to come.
    pub keys: Seq<u64>,
    /// For each table, the walk over its offsets.
    pub cursors: Seq<IoVecView>,
    /// For each table, the extent of the current record's payload.
    pub current: Seq<Extent>,
    /// The index of the streamed table.
    pub stream: Option<int>,
}

impl IterView {
    /// The vectors have one entry per table, and the streamed table is one of them.
    pub open spec fn wf(self) -> bool {
        &&& self.cursors.len() == self.names.len()
        &&& self.current.len() == self.names.len()
        &&& match self.stream {
            Some(t) => 0 <= t < self.names.len(),
            None => true,
        }
    }

    /// The keys to come are in order and reach the end of the range, and
    /// every table has an offset for each of them.
    pub open spec fn healthy(self) -> bool {
        &&& ordered(self.keys)
        &&& self.keys.len() > 0 ==> self.to <= self.keys.last()
        &&& self.keys.len() == 0 ==> self.current_key >= self.to
        &&& forall|t: int|
            0 <= t < self.cursors.len() ==> (#[trigger] self.cursors[t]).covers(self.keys.len())
    }

    /// Whether the iteration is over.
    pub open spec fn done(self) -> bool {
        self.current_key >= self.to || self.keys.len() == 0
    }

    /// The entry that the next step yields, if the iteration is not over.
    pub open spec fn entry(self) -> Entry {
        Entry {
            prev_key: self.current_key,
            key: self.keys[0],
            stream: match self.stream {
                Some(t) => Some(self.cursors[t].head()),
                None => None,
            },
        }
    }

    /// The iterator after the next step.
    pub open spec fn stepped(self) -> IterView {
        if self.done() {
            IterView { started: true, ..self }
        } else {
            IterView {
                started: true,
                current_key: self.keys[0],
                keys: self.keys.skip(1),
                cursors: Seq::new(self.cursors.len(), |t: int| self.cursors[t].tail()),
                current: Seq::new(self.cursors.len(), |t: int| self.cursors[t].head()),
                ..self
            }
        }
    }
}

/// The views of all walks.
pub open spec fn walk_views(walks: Seq<IoVecIter>) -> Seq<IoVecView> {
    Seq::new(walks.len(), |t: int| walks[t]@)
}

/// A range iterator over the keys of a store.
pub struct Iter {
    started: bool,
    current_key: u64,
    keys: caos::Iter<u64>,
    stream: Option<usize>,
    table_io_vecs: Vec<IoVecIter>,
    current_table_io_vecs: Vec<Extent>,
    to: u64,
    table_names: Vec<String>,
}

impl View for Iter {
    type V = IterView;

    closed spec fn view(&self) -> IterView {
        IterView {
            names: self.table_names@,
            started: self.started,
            current_key: self.current_key,
            to: self.to,
            keys: pending(self.keys),
            cursors: walk_views(self.table_io_vecs@),
            current: self.current_table_io_vecs@,
            stream: match self.stream {
                Some(t) => Some(t as int),
                None => None,
            },
        }
    }
}

/// Starts a walk at record `pos` in every table.
///
/// Each handle looks at what is published now. If every table holds at
/// least `pos` offsets, there is a walk for each.
pub(crate) fn make_walks(offsets: &mut Vec<caos::Reader<u64>>, pos: usize) -> (res: Option<
    Vec<IoVecIter>,
>)
    ensures
        final(offsets)@.len() == old(offsets)@.len(),
        forall|t: int|
            0 <= t < old(offsets)@.len() ==> extends(
                seen(old(offsets)@[t]),
                seen(#[trigger] final(offsets)@[t]),
            ),
        match res {
            Some(walks) => {
                &&& walks@.len() == old(offsets)@.len()
                &&& forall|t: int|
                    0 <= t < walks@.len() && pos <= seen(final(offsets)@[t]).len() ==> (
                    #[trigger] walks@[t])@ == walk_from(seen(final(offsets)@[t]), pos as int)
            },
            None => exists|t: int|
                0 <= t < old(offsets)@.len() && pos > seen(#[trigger] final(offsets)@[t]).len(),
        },
{
    let count: usize = offsets.len();
    let mut walks: Vec<IoVecIter> = Vec::new();
    let mut t: usize = 0;
    proof {
        assert forall|i: int| 0 <= i < count implies extends(
            seen(old(offsets)@[i]),
            seen(#[trigger] offsets@[i]),
        ) by {
            crate::seq::lemma_extends_refl(seen(offsets@[i]));
        }
    }
    while t < count
        invariant
            t <= count,
            count == offsets@.len(),
            count == old(offsets)@.len(),
            walks@.len() == t,
            forall|i: int|
                0 <= i < count ==> extends(seen(old(offsets)@[i]), seen(#[trigger] offsets@[i])),
            forall|i: int|
                0 <= i < t && pos <= seen(offsets@[i]).len() ==> (#[trigger] walks@[i])@
                    == walk_from(seen(offsets@[i]), pos as int),
        decreases count - t,
    {
        let ghost before = offsets@;
        match IoVecIter::from_caos_and_position(&mut offsets[t], pos) {
            Some(walk) => {
                walks.push(walk);
            },
            None => {
                proof {
                    assert forall|i: int| 0 <= i < count implies extends(
                        seen(old(offsets)@[i]),
                        seen(#[trigger] offsets@[i]),
                    ) by {
                        if i == t {
                            crate::seq::lemma_extends_trans(
                                seen(old(offsets)@[i]),
                                seen(before[i]),
                                seen(offsets@[i]),
                            );
                        } else {
                            assert(offsets@[i] == before[i]);
                        }
                    }
                    assert(pos > seen(offsets@[t as int]).len());
                }
                return None;
            },
        }
        proof {
            assert forall|i: int| 0 <= i < count implies extends(
                seen(old(offsets)@[i]),
                seen(#[trigger] offsets@[i]),
            ) by {
                if i == t {
                    crate::seq::lemma_extends_trans(
                        seen(old(offsets)@[i]),
                        seen(before[i]),
                        seen(offsets@[i]),
                    );
                } else {
                    assert(offsets@[i] == before[i]);
                }
            }
            assert forall|i: int| 0 <= i < t + 1 && pos <= seen(offsets@[i]).len() implies (
            #[trigger] walks@[i])@ == walk_from(seen(offsets@[i]), pos as int) by {
                if i < t {
                    assert(offsets@[i] == before[i]);
                }
            }
        }
        t += 1;
    }
    Some(walks)
}

/// Every walk has an offset to come that is not below its start.
pub open spec fn all_ready(cursors: Seq<IoVecView>) -> bool {
    forall|t: int|
        0 <= t < cursors.len() ==> (#[trigger] cursors[t]).ends.len() > 0 && cursors[t].start
            <= cursors[t].ends[0]
}

/// Moves every walk on by one payload and records the extents.
///
/// Returns whether every walk yielded an extent, as it does when all are ready.
fn advance_walks(walks: &mut Vec<IoVecIter>, current: &mut Vec<Extent>) -> (res: bool)
    requires
        old(walks)@.len() == old(current)@.len(),
    ensures
        final(walks)@.len() == old(walks)@.len(),
        final(current)@.len() == old(current)@.len(),
        all_ready(walk_views(old(walks)@)) ==> {
            &&& res
            &&& forall|t: int|
                0 <= t < old(walks)@.len() ==> (#[trigger] final(walks)@[t])@ == old(
                    walks,
                )@[t]@.tail()
            &&& forall|t: int|
                0 <= t < old(walks)@.len() ==> #[trigger] final(current)@[t] == old(
                    walks,
                )@[t]@.head()
        },
{
    let ghost before = walk_views(walks@);
    let count: usize = walks.len();
    let mut t: usize = 0;
    while t < count
        invariant
            t <= count,
            count == walks@.len(),
            count == current@.len(),
            count == before.len(),
            count == old(walks)@.len(),
            count == old(current)@.len(),
            before == walk_views(old(walks)@),
            forall|i: int| t <= i < count ==> (#[trigger] walks@[i])@ == before[i],
            all_ready(before) ==> {
                &&& forall|i: int| 0 <= i < t ==> (#[trigger] walks@[i])@ == before[i].tail()
                &&& forall|i: int| 0 <= i < t ==> #[trigger] current@[i] == before[i].head()
            },
        decreases count - t,
    {
        let ghost walks_before = walks@;
        let ghost current_before = current@;
        match walks[t].next() {
            Some(extent) => {
                current.set(t, extent);
            },
            None => {
                proof {
                    assert(walks_before[t as int]@ == before[t as int]);
                }
                return false;
            },
        }
        proof {
            assert(walks_before[t as int]@ == before[t as int]);
            assert forall|i: int| t + 1 <= i < count implies (#[trigger] walks@[i])@
                == before[i] by {
                assert(walks@[i] == walks_before[i]);
            }
            if all_ready(before) {
                assert(before[t as int].ends.len() > 0);
                assert forall|i: int| 0 <= i < t + 1 implies (#[trigger] walks@[i])@
                    == before[i].tail() by {
                    if i < t {
                        assert(walks@[i] == walks_before[i]);
                    }
                }
                assert forall|i: int| 0 <= i < t + 1 implies #[trigger] current@[i]
                    == before[i].head() by {
                    if i < t {
                        assert(current@[i] == current_before[i]);
                    }
                }
            }
        }
        t += 1;
    }
    proof {
        if all_ready(before) {
            assert forall|i: int| 0 <= i < count implies (#[trigger] walks@[i])@ == old(
                walks,
            )@[i]@.tail() by {
                assert(before[i] == old(walks)@[i]@);
            }
            assert forall|i: int| 0 <= i < count implies #[trigger] current@[i] == old(
                walks,
            )@[i]@.head() by {
                assert(before[i] == old(walks)@[i]@);
            }
        }
    }
    true
}

impl Iter {
    /// The invariant of an iterator: see `IterView::wf`.
    pub open spec fn wf(&self) -> bool {
        self@.wf()
    }

    /// Puts an iterator together that has not taken a step.
    pub(crate) fn from_parts(
        current_key: u64,
        keys: caos::Iter<u64>,
        stream: Option<usize>,
        table_io_vecs: Vec<IoVecIter>,
        to: u64,
        table_names: Vec<String>,
    ) -> (res: Iter)
        requires
            table_io_vecs@.len() == table_names@.len(),
            match stream {
                Some(t) => t < table_names@.len(),
                None => true,
            },
        ensures
            res.wf(),
            res@ == (IterView {
                names: table_names@,
                started: false,
                current_key,
                to,
                keys: pending(keys),
                cursors: walk_views(table_io_vecs@),
                current: Seq::new(table_names@.len(), |t: int| Extent { pos: 0, len: 0 }),
                stream: match stream {
                    Some(t) => Some(t as int),
                    None => None,
                },
            }),
    {
        let count: usize = table_names.len();
        let mut current: Vec<Extent> = Vec::new();
        let mut t: usize = 0;
        while t < count
            invariant
                t <= count,
                current@.len() == t,
                forall|i: int| 0 <= i < t ==> current@[i] == (Extent { pos: 0, len: 0 }),
            decreases count - t,
        {
            current.push(Extent { pos: 0, len: 0 });
            t += 1;
        }
        proof {
            assert(current@ =~= Seq::new(table_names@.len(), |t: int| Extent { pos: 0, len: 0 }));
        }
        Iter {
            started: false,
            current_key,
            keys,
            stream,
            table_io_vecs,
            current_table_io_vecs: current,
            to,
            table_names,
        }
    }

    /// The table names of the store.
    pub fn table_names(&self) -> (res: &[String])
        ensures
            res@ == self@.names,
    {
        self.table_names.as_slice()
    }

    /// The index of the table whose payloads are streamed, if any.
    pub fn stream(&self) -> (res: Option<usize>)
        ensures
            match res {
                Some(t) => self@.stream == Some(t as int),
                None => self@.stream is None,
            },
    {
        self.stream
    }

    /// Takes one step: the next key with the key before it, and for the
    /// streamed table the extent to read from the sequential reader.
    ///
    /// The iteration is over once the key yielded last has reached the end
    /// of the range. On an iterator that is healthy the result is exact and
    /// the iterator stays healthy; an error shows that the tables had fewer
    /// offsets than there were keys.
    pub fn next(&mut self) -> (res: Result<Option<Entry>, IterError>)
        requires
            old(self).wf(),
        ensures
            final(self).wf(),
            final(self)@.started,
            final(self)@.names == old(self)@.names,
            final(self)@.to == old(self)@.to,
            final(self)@.stream == old(self)@.stream,
            old(self)@.healthy() ==> {
                &&& final(self)@ == old(self)@.stepped()
                &&& final(self)@.healthy()
                &&& res == Ok::<Option<Entry>, IterError>(
                    if old(self)@.done() {
                        None
                    } else {
                        Some(old(self)@.entry())
                    },
                )
            },
            res is Err ==> res == Err::<Option<Entry>, IterError>(
                IterError::Read(ReadError::Inconsistent),
            ),
    {
        self.started = true;
        if self.current_key >= self.to {
            return Ok(None);
        }
        let ghost before = old(self)@;
        let next_key: u64 = match next_value(&mut self.keys) {
            Some(key) => key,
            None => {
                return Ok(None);
            },
        };
        let complete = advance_walks(&mut self.table_io_vecs, &mut self.current_table_io_vecs);
        if !complete {
            proof {
                if before.healthy() {
                    lemma_healthy_ready(before);
                }
            }
            return Err(IterError::Read(ReadError::Inconsistent));
        }
        let prev_key: u64 = self.current_key;
        self.current_key = next_key;
        let stream: Option<Extent> = match self.stream {
            Some(t) => Some(self.current_table_io_vecs[t]),
            None => None,
        };
        proof {
            if before.healthy() {
                lemma_healthy_ready(before);
                let after = self@;
                let want = before.stepped();
                assert(after.cursors =~= want.cursors);
                assert(after.current =~= want.current);
                assert(after == want);
                lemma_step_healthy(before);
            }
        }
        Ok(Some(Entry { prev_key, key: next_key, stream }))
    }

    /// The extent of the current record's payload in the named table.
    pub fn read(&self, table: &str) -> (res: Result<Extent, IterError>)
        requires
            self.wf(),
        ensures
            res == (if !self@.started {
                Err::<Extent, IterError>(IterError::NotStarted)
            } else {
                match table_index(self@.names, table@) {
                    Some(t) => Ok(self@.current[t]),
                    None => Err(IterError::Read(ReadError::UnknownTable)),
                }
            }),
    {
        if !self.started {
            return Err(IterError::NotStarted);
        }
        match find_table(self.table_names.as_slice(), table) {
            Some(t) => Ok(self.current_table_io_vecs[t]),
            None => Err(IterError::Read(ReadError::UnknownTable)),
        }
    }

    /// The position in the named table's data at which the current record's
    /// payload starts: the base to which the sub-ranges of a batched read
    /// are relative.
    pub fn read_many(&self, table: &str) -> (res: Result<u64, IterError>)
        requires
            self.wf(),
        ensures
            res == (if !self@.started {
                Err::<u64, IterError>(IterError::NotStarted)
            } else {
                match table_index(self@.names, table@) {
                    Some(t) => Ok(self@.current[t].pos),
                    None => Err(IterError::Read(ReadError::UnknownTable)),
                }
            }),
    {
        match self.read(table) {
            Ok(extent) => Ok(extent.pos),
            Err(e) => Err(e),
        }
    }
}

/// The walks of a healthy iterator that has keys to come are all ready.
proof fn lemma_healthy_ready(view: IterView)
    requires
        view.healthy(),
        view.keys.len() > 0,
    ensures
        all_ready(view.cursors),
{
    assert forall|t: int| 0 <= t < view.cursors.len() implies (
    #[trigger] view.cursors[t]).ends.len() > 0 && view.cursors[t].start
        <= view.cursors[t].ends[0] by {
        assert(view.cursors[t].covers(view.keys.len()));
    }
}

/// A step keeps a healthy iterator healthy.
pub proof fn lemma_step_healthy(view: IterView)
    requires
        view.healthy(),
    ensures
        view.stepped().healthy(),
{
    let after = view.stepped();
    if !view.done() {
        assert forall|i: int, j: int| 0 <= i <= j < after.keys.len() implies after.keys[i]
            <= after.keys[j] by {
            assert(after.keys[i] == view.keys[i + 1] && after.keys[j] == view.keys[j + 1]);
        }
        if after.keys.len() > 0 {
            assert(after.keys.last() == view.keys.last());
        } else {
            assert(view.keys.last() == view.keys[0]);
        }
        assert forall|t: int| 0 <= t < after.cursors.len() implies (
        #[trigger] after.cursors[t]).covers(after.keys.len()) by {
            let c = view.cursors[t];
            assert(c.covers(view.keys.len()));
            let d = after.cursors[t];
            assert(d == c.tail());
            assert forall|i: int, j: int| 0 <= i <= j < d.ends.len() implies d.ends[i]
                <= d.ends[j] by {
                assert(d.ends[i] == c.ends[i + 1] && d.ends[j] == c.ends[j + 1]);
            }
            if d.ends.len() > 0 {
                assert(d.ends[0] == c.ends[1]);
            }
        }
    }
}

/// The entries that the iterator yields from here on, in order.
pub open spec fn yielded(view: IterView) -> Seq<Entry>
    decreases view.keys.len(),
{
    if view.done() {
        Seq::empty()
    } else {
        seq![view.entry()] + yielded(view.stepped())
    }
}

/// The key in front of the `index`-th key to come.
pub open spec fn key_before(view: IterView, index: int) -> u64 {
    if index <= 0 {
        view.current_key
    } else {
        view.keys[index - 1]
    }
}

/// What a healthy iterator yields.
///
/// It yields the keys to come in their order, each with the key in front
/// of it, as long as the key in front is below the end of the range. So it
/// yields nothing if the key in front of the first is not below the end,
/// and otherwise every key up to and including the first one that reaches
/// the end.
pub proof fn lemma_yielded(view: IterView)
    requires
        view.healthy(),
    ensures
        yielded(view).len() <= view.keys.len(),
        view.current_key >= view.to ==> yielded(view).len() == 0,
        view.current_key < view.to ==> yielded(view).len() > 0 && view.keys[yielded(view).len()
            - 1] >= view.to,
        forall|j: int|
            0 <= j < yielded(view).len() ==> {
                &&& (#[trigger] yielded(view)[j]).key == view.keys[j]
                &&& yielded(view)[j].prev_key == key_before(view, j)
                &&& yielded(view)[j].prev_key < view.to
            },
    decreases view.keys.len(),
{
    if !view.done() {
        let next = view.stepped();
        lemma_step_healthy(view);
        lemma_yielded(next);
        let rest = yielded(next);
        let out = yielded(view);
        assert(out == seq![view.entry()] + rest);
        assert forall|j: int| 0 <= j < out.len() implies {
            &&& (#[trigger] out[j]).key == view.keys[j]
            &&& out[j].prev_key == key_before(view, j)
            &&& out[j].prev_key < view.to
        } by {
            if j > 0 {
                assert(out[j] == rest[j - 1]);
                assert(next.keys[j - 1] == view.keys[j]);
                if j > 1 {
                    assert(next.keys[j - 2] == view.keys[j - 1]);
                }
            }
        }
        if rest.len() > 0 {
            assert(next.keys[rest.len() - 1] == view.keys[rest.len() as int]);
        }
    }
}

} // verus!
