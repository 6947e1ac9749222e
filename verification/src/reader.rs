//! The reading side of a store: point lookups and the opening of range iterators.
//!
//! A reader resolves keys to byte extents of the data files. It reads no
//! file itself: the caller reads the extent that it is given.

use std::path::PathBuf;
use vstd::prelude::*;

use crate::codec::{last_or_zero, ordered};
use crate::error::ReadError;
use crate::iter::{
    lemma_yielded,
    make_walks,
    walk_from,
    yielded,
    IoVecIter,
    IoVecView,
    Iter,
    IterView,
};
use crate::model::start_of;
use crate::params::IterParams;
use crate::seq::{
    all_below,
    clone_reader,
    extends,
    first_at_least,
    iter_from,
    last_value,
    lemma_extends_refl,
    lemma_extends_trans,
    lemma_prefix_ordered,
    lower_bound,
    next_value,
    pending,
    position_of,
    seen,
};

verus! {

/// A run of bytes in a data file.
#[derive(Debug, Clone, Copy, PartialEq, Eq)]
pub struct Extent {
    /// The position of the first byte.
    pub pos: u64,
    /// The number of bytes.
    pub len: u64,
}

/// The first index at or after `from` whose name is `table`.
pub open spec fn first_named(names: Seq<String>, table: Seq<char>, from: int) -> Option<int>
    decreases names.len() - from,
{
    if from < 0 || from >= names.len() {
        None
    } else if names[from]@ == table {
        Some(from)
    } else {
        first_named(names, table, from + 1)
    }
}

/// The index of the table with the given name: the first, should a name occur twice.
pub open spec fn table_index(names: Seq<String>, table: Seq<char>) -> Option<int> {
    first_named(names, table, 0)
}

/// The extent of the payload of record `index`, given the end offsets of its table.
pub open spec fn extent_at(ends: Seq<u64>, index: int) -> Extent {
    Extent { pos: start_of(ends, index), len: (ends[index] - start_of(ends, index)) as u64 }
}

/// The end of the range of an iteration: the upper end that was asked for,
/// but no more than the last key.
pub open spec fn clamp(to: u64, keys: Seq<u64>) -> u64 {
    if to <= last_or_zero(keys) {
        to
    } else {
        last_or_zero(keys)
    }
}

/// Looks a table up by its name.
pub fn find_table(names: &[String], table: &str) -> (res: Option<usize>)
    ensures
        match res {
            Some(t) => table_index(names@, table@) == Some(t as int) && t < names@.len(),
            None => table_index(names@, table@) is None,
        },
{
    let wanted: String = table.to_owned();
    let count: usize = names.len();
    let mut i: usize = 0;
    while i < count
        invariant
            i <= count,
            count == names@.len(),
            wanted@ == table@,
            table_index(names@, table@) == first_named(names@, table@, i as int),
        decreases count - i,
    {
        if names[i] == wanted {
            return Some(i);
        }
        i += 1;
    }
    None
}

/// A copy of a list of names.
pub(crate) fn clone_names(names: &Vec<String>) -> (res: Vec<String>)
    ensures
        res@ == names@,
{
    let count: usize = names.len();
    let mut copy: Vec<String> = Vec::new();
    let mut i: usize = 0;
    while i < count
        invariant
            i <= count,
            count == names@.len(),
            copy@ == names@.take(i as int),
        decreases count - i,
    {
        copy.push(names[i].clone());
        proof {
            assert(copy@ =~= names@.take(i + 1));
        }
        i += 1;
    }
    proof {
        assert(names@.take(count as int) =~= names@);
    }
    copy
}

/// Copies of a list of reading handles.
fn clone_handles(handles: &Vec<caos::Reader<u64>>) -> (res: Vec<caos::Reader<u64>>)
    ensures
        res@.len() == handles@.len(),
        forall|t: int| 0 <= t < handles@.len() ==> seen(#[trigger] res@[t]) == seen(handles@[t]),
{
    let count: usize = handles.len();
    let mut copy: Vec<caos::Reader<u64>> = Vec::new();
    let mut i: usize = 0;
    while i < count
        invariant
            i <= count,
            count == handles@.len(),
            copy@.len() == i,
            forall|t: int| 0 <= t < i ==> seen(#[trigger] copy@[t]) == seen(handles@[t]),
        decreases count - i,
    {
        copy.push(clone_reader(&handles[i]));
        i += 1;
    }
    copy
}

/// What a reader has seen of the store.
pub struct ReaderView {
    pub names: Seq<String>,
    /// The keys seen so far.
    pub keys: Seq<u64>,
    /// The end offsets seen so far, by table.
    pub offsets: Seq<Seq<u64>>,
}

impl ReaderView {
    /// There is one sequence of offsets per table.
    pub open spec fn wf(self) -> bool {
        self.offsets.len() == self.names.len()
    }

    /// The keys and the offsets of one table are in order, and the table
    /// has an offset for each key.
    ///
    /// This holds of every store whose writer keeps its invariant, as long
    /// as a reader looks at the keys before it looks at the table's offsets.
    pub open spec fn covers(self, table: int) -> bool {
        &&& ordered(self.keys)
        &&& self.offsets[table].len() >= self.keys.len()
        &&& ordered(self.offsets[table])
    }

    /// Keys and offsets are in order, and every table has an offset for each key.
    pub open spec fn consistent(self) -> bool {
        &&& ordered(self.keys)
        &&& forall|t: int|
            0 <= t < self.offsets.len() ==> {
                &&& (#[trigger] self.offsets[t]).len() >= self.keys.len()
                &&& ordered(self.offsets[t])
            }
    }

    /// The reader has seen what it had seen at `earlier`, and possibly more.
    pub open spec fn grown_from(self, earlier: ReaderView) -> bool {
        &&& self.names == earlier.names
        &&& self.offsets.len() == earlier.offsets.len()
        &&& extends(earlier.keys, self.keys)
        &&& forall|t: int|
            0 <= t < self.offsets.len() ==> extends(earlier.offsets[t], #[trigger] self.offsets[t])
    }
}

/// The views of all reading handles.
pub open spec fn seen_all(handles: Seq<caos::Reader<u64>>) -> Seq<Seq<u64>> {
    Seq::new(handles.len(), |t: int| seen(handles[t]))
}

/// The reading side of a store. Any number of readers may exist.
pub struct Reader {
    keys: caos::Reader<u64>,
    table_offsets: Vec<caos::Reader<u64>>,
    table_names: Vec<String>,
}

impl View for Reader {
    type V = ReaderView;

    closed spec fn view(&self) -> ReaderView {
        ReaderView {
            names: self.table_names@,
            keys: seen(self.keys),
            offsets: seen_all(self.table_offsets@),
        }
    }
}

impl Clone for Reader {
    fn clone(&self) -> (res: Self)
        ensures
            res@ == self@,
    {
        let res = Reader {
            keys: clone_reader(&self.keys),
            table_offsets: clone_handles(&self.table_offsets),
            table_names: clone_names(&self.table_names),
        };
        proof {
            assert(res@.offsets =~= self@.offsets);
        }
        res
    }
}

/// Resolves record `pos` of a table to the extent of its payload.
///
/// The handle looks at what is published now. If that is in order and
/// holds the offset of record `pos`, the result is the record's extent.
fn record_extent(offsets: &mut caos::Reader<u64>, pos: usize) -> (res: Option<Extent>)
    ensures
        extends(seen(*old(offsets)), seen(*final(offsets))),
        pos < seen(*final(offsets)).len() && ordered(seen(*final(offsets))) ==> res == Some(
            extent_at(seen(*final(offsets)), pos as int),
        ),
{
    let mut walk = match IoVecIter::from_caos_and_position(offsets, pos) {
        Some(walk) => walk,
        None => return None,
    };
    proof {
        let all = seen(*offsets);
        if pos < all.len() && ordered(all) {
            assert(walk@.ends[0] == all[pos as int]);
            if pos > 0 {
                assert(all[pos - 1] <= all[pos as int]);
            }
        }
    }
    walk.next()
}

impl Reader {
    /// The invariant of a reader: see `ReaderView::wf`.
    pub open spec fn wf(&self) -> bool {
        self@.wf()
    }

    /// Puts a reader together from its handles.
    pub(crate) fn from_parts(
        keys: caos::Reader<u64>,
        table_offsets: Vec<caos::Reader<u64>>,
        table_names: Vec<String>,
    ) -> (res: Reader)
        ensures
            res@ == (ReaderView {
                names: table_names@,
                keys: seen(keys),
                offsets: seen_all(table_offsets@),
            }),
    {
        Reader { keys, table_offsets, table_names }
    }

    /// Makes a reader over sequences that were made elsewhere: the keys, and
    /// the end offsets of each named table. There must be one sequence of
    /// offsets per name.
    pub fn with_handles(
        keys: caos::Reader<u64>,
        table_offsets: Vec<caos::Reader<u64>>,
        table_names: Vec<String>,
    ) -> (res: Option<Reader>)
        ensures
            match res {
                Some(reader) => {
                    &&& table_offsets@.len() == table_names@.len()
                    &&& reader.wf()
                    &&& reader@ == (ReaderView {
                        names: table_names@,
                        keys: seen(keys),
                        offsets: seen_all(table_offsets@),
                    })
                },
                None => table_offsets@.len() != table_names@.len(),
            },
    {
        if table_offsets.len() != table_names.len() {
            return None;
        }
        Some(Reader::from_parts(keys, table_offsets, table_names))
    }

    /// Another handle on the sequence of keys.
    pub fn keys(&self) -> (res: caos::Reader<u64>)
        ensures
            seen(res) == self@.keys,
    {
        clone_reader(&self.keys)
    }

    /// The table names of the store.
    pub fn table_names(&self) -> (res: &[String])
        ensures
            res@ == self@.names,
    {
        self.table_names.as_slice()
    }

    /// Resolves a key to the extent of its record's payload in a table.
    ///
    /// The reader looks at the keys that are published now and then at the
    /// table's offsets. If the keys and these offsets are in order and there
    /// is an offset for each key, the result is the extent of a record with
    /// this key, or `None` if there is no such record. Which record answers
    /// for a key that occurs more than once is left open.
    pub fn read(&mut self, table: &str, key: u64) -> (res: Result<Option<Extent>, ReadError>)
        requires
            old(self).wf(),
        ensures
            final(self).wf(),
            final(self)@.grown_from(old(self)@),
            match table_index(old(self)@.names, table@) {
                None => res == Err::<Option<Extent>, ReadError>(ReadError::UnknownTable)
                    && final(self)@ == old(self)@,
                Some(t) => {
                    &&& res != Err::<Option<Extent>, ReadError>(ReadError::UnknownTable)
                    &&& final(self)@.covers(t) ==> match res {
                        Ok(None) => !final(self)@.keys.contains(key),
                        Ok(Some(extent)) => exists|i: int|
                            0 <= i < final(self)@.keys.len() && #[trigger] final(self)@.keys[i]
                                == key && extent == extent_at(final(self)@.offsets[t], i),
                        Err(_) => false,
                    }
                },
            },
    {
        let t: usize = match find_table(self.table_names.as_slice(), table) {
            Some(t) => t,
            None => {
                proof {
                    lemma_extends_refl(self@.keys);
                    lemma_same_offsets(old(self)@, self@);
                }
                return Err(ReadError::UnknownTable);
            },
        };
        let ghost handles = self.table_offsets@;
        let pos: usize = match position_of(&mut self.keys, key) {
            Some(pos) => pos,
            None => {
                proof {
                    assert(self@.offsets =~= old(self)@.offsets);
                    assert forall|i: int| 0 <= i < self@.offsets.len() implies extends(
                        old(self)@.offsets[i],
                        #[trigger] self@.offsets[i],
                    ) by {
                        assert(self@.offsets[i].take(self@.offsets[i].len() as int)
                            =~= self@.offsets[i]);
                    }
                }
                return Ok(None);
            },
        };
        let found = record_extent(&mut self.table_offsets[t], pos);
        proof {
            assert forall|i: int| 0 <= i < self@.offsets.len() implies extends(
                old(self)@.offsets[i],
                #[trigger] self@.offsets[i],
            ) by {
                if i != t {
                    assert(self.table_offsets@[i] == handles[i]);
                    assert(self@.offsets[i].take(self@.offsets[i].len() as int)
                        =~= self@.offsets[i]);
                }
            }
            if self@.covers(t as int) {
                assert(self@.keys[pos as int] == key);
            }
        }
        match found {
            Some(extent) => Ok(Some(extent)),
            None => Err(ReadError::Inconsistent),
        }
    }

    /// Resolves a key to the position at which its record's payload starts
    /// in a table: the base to which the sub-ranges of a batched read are
    /// relative.
    ///
    /// The reader looks as `read` does, and the result is `None` for a key
    /// without a record.
    pub fn read_many(&mut self, table: &str, key: u64) -> (res: Result<Option<u64>, ReadError>)
        requires
            old(self).wf(),
        ensures
            final(self).wf(),
            final(self)@.grown_from(old(self)@),
            match table_index(old(self)@.names, table@) {
                None => res == Err::<Option<u64>, ReadError>(ReadError::UnknownTable)
                    && final(self)@ == old(self)@,
                Some(t) => {
                    &&& res != Err::<Option<u64>, ReadError>(ReadError::UnknownTable)
                    &&& final(self)@.covers(t) ==> match res {
                        Ok(None) => !final(self)@.keys.contains(key),
                        Ok(Some(base)) => exists|i: int|
                            0 <= i < final(self)@.keys.len() && #[trigger] final(self)@.keys[i]
                                == key && base == start_of(final(self)@.offsets[t], i),
                        Err(_) => false,
                    }
                },
            },
    {
        match self.read(table, key) {
            Ok(Some(extent)) => Ok(Some(extent.pos)),
            Ok(None) => Ok(None),
            Err(e) => Err(e),
        }
    }

    /// Opens a range iterator.
    ///
    /// The reader looks at the keys that are published now and then at the
    /// offsets of every table. If the keys are in order, the result is
    /// `None` when every key is below `from`, and an error when a table is
    /// to be streamed that the store does not have. Otherwise, if what the
    /// reader sees is consistent, the result is an iterator that stands in
    /// front of the first record whose key is at least `from`, and whose
    /// range ends at `to` or at the last key, whichever is smaller.
    pub fn iter(&mut self, params: IterParams<'_>) -> (res: Result<Option<Iter>, ReadError>)
        requires
            old(self).wf(),
        ensures
            final(self).wf(),
            final(self)@.grown_from(old(self)@),
            match res {
                Ok(Some(it)) => {
                    &&& it.wf()
                    &&& it@.names == old(self)@.names
                    &&& !it@.started
                    &&& it@.current == Seq::new(
                        it@.names.len(),
                        |t: int| Extent { pos: 0, len: 0 },
                    )
                },
                _ => true,
            },
            ordered(final(self)@.keys) ==> {
                if all_below(final(self)@.keys, params@.from) {
                    res matches Ok(None)
                } else if params@.table matches Some(name) && table_index(old(self)@.names, name)
                    is None {
                    res matches Err(ReadError::UnknownTable)
                } else {
                    res matches Ok(Some(_)) || res matches Err(ReadError::Inconsistent)
                }
            },
            final(self)@.consistent() ==> res != Err::<Option<Iter>, ReadError>(
                ReadError::Inconsistent,
            ),
            final(self)@.consistent() ==> {
                match res {
                    Ok(Some(it)) => exists|p: int|
                            {
                                &&& #[trigger] first_at_least(final(self)@.keys, params@.from, p)
                                &&& it@.healthy()
                                &&& it@.current_key == start_of(final(self)@.keys, p)
                                &&& it@.keys == final(self)@.keys.skip(p)
                                &&& it@.cursors == walks_from(final(self)@.offsets, p)
                                &&& it@.stream == match params@.table {
                                    Some(name) => table_index(old(self)@.names, name),
                                    None => None,
                                }
                                &&& clamp(params@.to, old(self)@.keys) <= it@.to <= clamp(
                                    params@.to,
                                    final(self)@.keys,
                                )
                            },
                    _ => true,
                }
            },
    {
        let opened = open_keys(&mut self.keys, params.from(), params.to());
        proof {
            lemma_same_offsets(old(self)@, self@);
        }
        let (pos, current_key, to, keys) = match opened {
            Some(Some(found)) => found,
            Some(None) => return Ok(None),
            None => return Err(ReadError::Inconsistent),
        };
        let stream: Option<usize> = match params.table() {
            Some(name) => match find_table(self.table_names.as_slice(), name) {
                Some(t) => Some(t),
                None => return Err(ReadError::UnknownTable),
            },
            None => None,
        };
        let walks = match make_walks(&mut self.table_offsets, pos) {
            Some(walks) => walks,
            None => {
                proof {
                    if self@.consistent() {
                        let t = choose|t: int|
                            0 <= t < self.table_offsets@.len() && pos > seen(
                                #[trigger] self.table_offsets@[t],
                            ).len();
                        assert(self@.offsets[t].len() >= self@.keys.len());
                    }
                }
                return Err(ReadError::Inconsistent);
            },
        };
        let names = clone_names(&self.table_names);
        let it = Iter::from_parts(current_key, keys, stream, walks, to, names);
        proof {
            if self@.consistent() {
                let p = pos as int;
                let want = walks_from(self@.offsets, p);
                assert(it@.cursors =~= want) by {
                    assert forall|t: int| 0 <= t < want.len() implies it@.cursors[t] == want[t] by {
                        assert(self@.offsets[t].len() >= self@.keys.len());
                    }
                }
                lemma_opened_healthy(self@, p, it@);
                assert(first_at_least(self@.keys, params@.from, p));
            }
        }
        Ok(Some(it))
    }
}

/// The walks over every table that begin with record `pos`.
pub open spec fn walks_from(offsets: Seq<Seq<u64>>, pos: int) -> Seq<IoVecView> {
    Seq::new(offsets.len(), |t: int| walk_from(offsets[t], pos))
}

/// Finds where a range begins among the keys.
///
/// The handle looks at what is published now. If that is in order, the
/// result is `Some(None)` when every key is below `from`, and otherwise the
/// position of the first key that is not, the key in front of it or zero,
/// the end of the range, and an iterator over the keys from that position
/// on. `None` tells that the keys were found out of order.
fn open_keys(keys: &mut caos::Reader<u64>, from: u64, to: u64) -> (res: Option<
    Option<(usize, u64, u64, caos::Iter<u64>)>,
>)
    ensures
        extends(seen(*old(keys)), seen(*final(keys))),
        ordered(seen(*final(keys))) ==> {
            if all_below(seen(*final(keys)), from) {
                res matches Some(None)
            } else {
                match res {
                    Some(Some((pos, current, end, it))) => {
                        &&& first_at_least(seen(*final(keys)), from, pos as int)
                        &&& current == start_of(seen(*final(keys)), pos as int)
                        &&& pending(it) == seen(*final(keys)).skip(pos as int)
                        &&& clamp(to, seen(*old(keys))) <= end <= clamp(to, seen(*final(keys)))
                    },
                    _ => false,
                }
            }
        },
{
    let last: Option<u64> = last_value(keys);
    let ghost first = seen(*keys);
    let end: u64 = match last {
        Some(last) => if to <= last {
            to
        } else {
            last
        },
        None => 0,
    };
    let pos: usize = match lower_bound(keys, from) {
        Some(pos) => pos,
        None => {
            proof {
                lemma_extends_trans(seen(*old(keys)), first, seen(*keys));
            }
            return Some(None);
        },
    };
    let ghost second = seen(*keys);
    let mut it = if pos == 0 {
        iter_from(keys, 0)
    } else {
        iter_from(keys, pos - 1)
    };
    let ghost all = seen(*keys);
    let ghost at_start = pending(it);
    proof {
        lemma_extends_trans(seen(*old(keys)), first, second);
        lemma_extends_trans(seen(*old(keys)), second, all);
        lemma_extends_trans(first, second, all);
        if ordered(all) {
            lemma_prefix_ordered(second, all);
            assert(first_at_least(second, from, pos as int));
            lemma_first_at_least_grows(second, all, from, pos as int);
            lemma_clamp_grows(seen(*old(keys)), first, to);
            lemma_prefix_ordered(first, all);
            lemma_clamp_grows(first, all, to);
        }
    }
    let current: u64 = if pos == 0 {
        proof {
            assert(all.skip(0) =~= all);
        }
        0
    } else {
        match next_value(&mut it) {
            Some(key) => {
                proof {
                    if ordered(all) {
                        assert(all.skip(pos - 1).skip(1) =~= all.skip(pos as int));
                    }
                }
                key
            },
            None => {
                return None;
            },
        }
    };
    Some(Some((pos, current, end, it)))
}

/// The first position at or above a bound stays the first when the
/// sequence grows.
proof fn lemma_first_at_least_grows(shorter: Seq<u64>, longer: Seq<u64>, bound: u64, p: int)
    requires
        extends(shorter, longer),
        first_at_least(shorter, bound, p),
    ensures
        first_at_least(longer, bound, p),
        !all_below(longer, bound),
{
    assert(shorter == longer.take(shorter.len() as int));
    assert(longer[p] == shorter[p]);
    assert forall|j: int| 0 <= j < p implies longer[j] < bound by {
        assert(longer[j] == shorter[j]);
    }
}

/// The end of a range does not shrink when an ordered sequence of keys grows.
proof fn lemma_clamp_grows(shorter: Seq<u64>, longer: Seq<u64>, to: u64)
    requires
        extends(shorter, longer),
        ordered(longer),
    ensures
        clamp(to, shorter) <= clamp(to, longer),
{
    assert(shorter == longer.take(shorter.len() as int));
    if shorter.len() > 0 {
        assert(shorter.last() == longer[shorter.len() - 1]);
        assert(longer[shorter.len() - 1] <= longer.last());
    }
}

/// An iterator that was opened on a consistent reader is healthy.
proof fn lemma_opened_healthy(reader: ReaderView, p: int, it: IterView)
    requires
        reader.consistent(),
        0 <= p < reader.keys.len(),
        it.keys == reader.keys.skip(p),
        it.cursors == walks_from(reader.offsets, p),
        it.to <= clamp(it.to, reader.keys),
    ensures
        it.healthy(),
{
    let all = reader.keys;
    assert forall|i: int, j: int| 0 <= i <= j < it.keys.len() implies it.keys[i] <= it.keys[j] by {
        assert(it.keys[i] == all[p + i] && it.keys[j] == all[p + j]);
    }
    assert(it.keys.last() == all.last());
    assert forall|t: int| 0 <= t < it.cursors.len() implies (#[trigger] it.cursors[t]).covers(
        it.keys.len(),
    ) by {
        let ends = reader.offsets[t];
        assert(ends.len() >= all.len());
        assert(ordered(ends));
        let c = walk_from(ends, p);
        assert(it.cursors[t] == c);
        assert forall|i: int, j: int| 0 <= i <= j < c.ends.len() implies c.ends[i] <= c.ends[j] by {
            assert(c.ends[i] == ends[p + i] && c.ends[j] == ends[p + j]);
        }
        assert(c.ends[0] == ends[p]);
        if p > 0 {
            assert(ends[p - 1] <= ends[p]);
        }
    }
}

/// What an iterator yields that was opened on ordered keys.
///
/// Let the iterator stand in front of record `p`, the first whose key is at
/// least `from`. Then its `j`-th entry is record `p + j`: the key of that
/// record with the key of the record before it, or with zero in front of
/// the first record of the store. No entry has a key below `from`, and the
/// entries end with the first record whose key reaches the end of the range.
pub proof fn lemma_range(keys: Seq<u64>, from: u64, p: int, it: IterView)
    requires
        ordered(keys),
        first_at_least(keys, from, p),
        it.healthy(),
        it.keys == keys.skip(p),
        it.current_key == start_of(keys, p),
    ensures
        p + yielded(it).len() <= keys.len(),
        forall|j: int|
            0 <= j < yielded(it).len() ==> {
                &&& (#[trigger] yielded(it)[j]).key == keys[p + j]
                &&& yielded(it)[j].prev_key == start_of(keys, p + j)
                &&& yielded(it)[j].key >= from
                &&& yielded(it)[j].prev_key < it.to
            },
        it.current_key < it.to ==> yielded(it).len() > 0 && keys[p + yielded(it).len() - 1]
            >= it.to,
        it.current_key >= it.to ==> yielded(it).len() == 0,
{
    lemma_yielded(it);
    let out = yielded(it);
    assert forall|j: int| 0 <= j < out.len() implies {
        &&& (#[trigger] out[j]).key == keys[p + j]
        &&& out[j].prev_key == start_of(keys, p + j)
        &&& out[j].key >= from
        &&& out[j].prev_key < it.to
    } by {
        assert(it.keys[j] == keys[p + j]);
        assert(keys[p] <= keys[p + j]);
        if j > 0 {
            assert(it.keys[j - 1] == keys[p + j - 1]);
        }
    }
    if out.len() > 0 {
        assert(it.keys[out.len() - 1] == keys[p + out.len() - 1]);
    }
}

/// A reader whose handles on the offsets have not looked again has grown,
/// if its keys have.
proof fn lemma_same_offsets(earlier: ReaderView, later: ReaderView)
    requires
        later.names == earlier.names,
        later.offsets == earlier.offsets,
        extends(earlier.keys, later.keys),
    ensures
        later.grown_from(earlier),
{
    assert forall|t: int| 0 <= t < later.offsets.len() implies extends(
        earlier.offsets[t],
        #[trigger] later.offsets[t],
    ) by {
        assert(later.offsets[t].take(later.offsets[t].len() as int) =~= later.offsets[t]);
    }
}

/// Shifts a sub-range of a record's payload to its place in the data file.
pub fn shift(base: u64, pos: u64, size: usize) -> (res: (u64, usize))
    requires
        base + pos <= u64::MAX,
    ensures
        res.0 == base + pos,
        res.1 == size,
{
    (base + pos, size)
}

/// The cloneable right to make readers of a store that was opened.
pub struct ReaderFactory {
    path: PathBuf,
    reader: Reader,
}

/// What a reader factory holds.
pub struct ReaderFactoryView {
    pub path: PathBuf,
    pub reader: ReaderView,
}

impl View for ReaderFactory {
    type V = ReaderFactoryView;

    closed spec fn view(&self) -> ReaderFactoryView {
        ReaderFactoryView { path: self.path, reader: self.reader@ }
    }
}

impl Clone for ReaderFactory {
    fn clone(&self) -> (res: Self)
        ensures
            res@ == self@,
    {
        ReaderFactory { path: self.path.clone(), reader: self.reader.clone() }
    }
}

impl ReaderFactory {
    /// Wraps the handles that recovery made.
    pub(crate) fn new(path: PathBuf, reader: Reader) -> (res: ReaderFactory)
        ensures
            res@ == (ReaderFactoryView { path, reader: reader@ }),
    {
        ReaderFactory { path, reader }
    }

    /// The root directory of the store.
    pub fn path(&self) -> (res: &PathBuf)
        ensures
            *res == self@.path,
    {
        &self.path
    }

    /// The table names of the store.
    pub fn table_names(&self) -> (res: &[String])
        ensures
            res@ == self@.reader.names,
    {
        self.reader.table_names()
    }

    /// Makes a reader with handles of its own.
    pub fn make(&self) -> (res: Reader)
        ensures
            res@ == self@.reader,
    {
        self.reader.clone()
    }
}

} // verus!
