//! The shared append-only sequences that hold keys and offsets in memory.
//!
//! A sequence has one writer and any number of reading handles. What has been
//! published is never rewritten, so a handle that has seen a prefix will see the
//! same prefix again, possibly with more behind it.

use vstd::prelude::*;

// The three types of a sequence, under names that leave `Writer`, `Reader`
// and `Iter` to the store's own types.
use caos::{Iter as SeqIter, Reader as SeqReader, Writer as SeqWriter};

use crate::codec::ordered;

verus! {

/// `caos::Writer`, the writing end of a sequence, as an opaque value.
#[verifier::external_type_specification]
#[verifier::external_body]
#[verifier::reject_recursive_types(T)]
pub struct ExWriter<T: Copy>(SeqWriter<T>);

/// `caos::Reader`, a reading handle on a sequence, as an opaque value.
#[verifier::external_type_specification]
#[verifier::external_body]
#[verifier::reject_recursive_types(T)]
pub struct ExReader<T: Copy>(SeqReader<T>);

/// `caos::Iter`, an iterator over a sequence, as an opaque value.
#[verifier::external_type_specification]
#[verifier::external_body]
#[verifier::reject_recursive_types(T)]
pub struct ExIter<T: Copy + 'static>(SeqIter<T>);

/// The values appended through this writer so far, oldest first.
pub uninterp spec fn written(w: caos::Writer<u64>) -> Seq<u64>;

/// The prefix of the shared sequence that this handle has seen published.
///
/// It grows only when the handle looks, which is why every reading operation
/// takes the handle by `&mut`; it never shrinks or changes in place.
pub uninterp spec fn seen(r: caos::Reader<u64>) -> Seq<u64>;

/// The values that the iterator has yet to yield out of what was published
/// when it was made.
pub uninterp spec fn pending(it: caos::Iter<u64>) -> Seq<u64>;

/// `longer` starts with `shorter`.
pub open spec fn extends(shorter: Seq<u64>, longer: Seq<u64>) -> bool {
    shorter.len() <= longer.len() && longer.take(shorter.len() as int) == shorter
}

/// `index` is the first position of `s` that holds a value of at least `bound`.
pub open spec fn first_at_least(s: Seq<u64>, bound: u64, index: int) -> bool {
    &&& 0 <= index < s.len()
    &&& s[index] >= bound
    &&& forall|j: int| 0 <= j < index ==> s[j] < bound
}

/// Every value of `s` is below `bound`.
pub open spec fn all_below(s: Seq<u64>, bound: u64) -> bool {
    forall|j: int| 0 <= j < s.len() ==> s[j] < bound
}

/// The largest segment length that a sequence can be made with on this machine.
pub open spec fn max_segment_len() -> int {
    (isize::MAX - 64) / 8
}

/// `caos::new` for 64-bit values: a fresh sequence, returned as its writer and
/// a first reading handle. Both start out empty. The outside function panics
/// on a zero segment length and on a segment whose byte size, rounded up to
/// its 64-byte alignment, exceeds `isize::MAX`.
#[verifier::external_body]
pub(crate) fn new_pair(segment_len: usize) -> (pair: (caos::Writer<u64>, caos::Reader<u64>))
    requires
        0 < segment_len <= max_segment_len(),
    ensures
        written(pair.0) == Seq::<u64>::empty(),
        seen(pair.1) == Seq::<u64>::empty(),
{
    caos::new::<u64>(segment_len)
}

/// `caos::Writer::append`: the values are added at the end, in their order.
#[verifier::external_body]
pub(crate) fn append_values(w: &mut caos::Writer<u64>, values: &Vec<u64>)
    ensures
        written(*final(w)) == written(*old(w)) + values@,
{
    w.append(values)
}

/// `Clone` of `caos::Reader`: another handle on the same sequence, which has
/// seen what this one has.
#[verifier::external_body]
pub(crate) fn clone_reader(r: &caos::Reader<u64>) -> (copy: caos::Reader<u64>)
    ensures
        seen(copy) == seen(*r),
{
    r.clone()
}

/// `caos::Reader::last`: the handle looks at what is published now and
/// returns its last value, or `None` if there is none.
#[verifier::external_body]
pub(crate) fn last_value(r: &mut caos::Reader<u64>) -> (res: Option<u64>)
    ensures
        extends(seen(*old(r)), seen(*final(r))),
        res == (if seen(*final(r)).len() == 0 {
            None
        } else {
            Some(seen(*final(r)).last())
        }),
{
    r.last()
}

/// `caos::Reader::position`: the handle looks at what is published now. If
/// that is in order, the result is the index of some occurrence of `value`,
/// or `None` if there is none. Which of several equal values is found is
/// left open, as the binary search of the standard library leaves it.
#[verifier::external_body]
pub(crate) fn position_of(r: &mut caos::Reader<u64>, value: u64) -> (res: Option<usize>)
    ensures
        extends(seen(*old(r)), seen(*final(r))),
        ordered(seen(*final(r))) ==> match res {
            Some(i) => i < seen(*final(r)).len() && seen(*final(r))[i as int] == value,
            None => !seen(*final(r)).contains(value),
        },
{
    r.position(value)
}

/// `caos::Reader::next_position`: the handle looks at what is published now.
/// If that is in order, the result is the first index whose value is
/// strictly greater than `value`, or `None` if no value is.
#[verifier::external_body]
pub(crate) fn position_after(r: &mut caos::Reader<u64>, value: u64) -> (res: Option<usize>)
    ensures
        extends(seen(*old(r)), seen(*final(r))),
        ordered(seen(*final(r))) ==> match res {
            Some(i) => {
                &&& i < seen(*final(r)).len()
                &&& seen(*final(r))[i as int] > value
                &&& forall|j: int| 0 <= j < i ==> seen(*final(r))[j] <= value
            },
            None => forall|j: int| 0 <= j < seen(*final(r)).len() ==> seen(*final(r))[j] <= value,
        },
{
    r.next_position(value)
}

/// `caos::Reader::iter_from`: the handle looks at what is published now; the
/// iterator will yield that from `index` on, or nothing if `index` lies
/// beyond the end.
#[verifier::external_body]
pub(crate) fn iter_from(r: &mut caos::Reader<u64>, index: usize) -> (it: caos::Iter<u64>)
    ensures
        extends(seen(*old(r)), seen(*final(r))),
        pending(it) == (if index <= seen(*final(r)).len() {
            seen(*final(r)).skip(index as int)
        } else {
            Seq::<u64>::empty()
        }),
{
    r.iter_from(index)
}

/// `Iterator::next` of `caos::Iter`: yields the first pending value. Once
/// nothing is pending the iterator may end, or go on with values that were
/// published after it was made: the result is then left open.
#[verifier::external_body]
pub(crate) fn next_value(it: &mut caos::Iter<u64>) -> (res: Option<u64>)
    ensures
        pending(*old(it)).len() > 0 ==> res == Some(pending(*old(it))[0]) && pending(*final(it))
            == pending(*old(it)).skip(1),
        pending(*old(it)).len() == 0 ==> pending(*final(it)).len() == 0,
{
    it.next()
}

/// Finds the first position whose value is at least `bound`.
///
/// The handle looks at what is published now. If that is in order, the
/// result is the first such position, or `None` if every value is smaller.
pub fn lower_bound(r: &mut caos::Reader<u64>, bound: u64) -> (res: Option<usize>)
    ensures
        extends(seen(*old(r)), seen(*final(r))),
        ordered(seen(*final(r))) ==> match res {
            Some(i) => first_at_least(seen(*final(r)), bound, i as int),
            None => all_below(seen(*final(r)), bound),
        },
{
    if bound == 0 {
        match last_value(r) {
            Some(_) => Some(0),
            None => None,
        }
    } else {
        position_after(r, bound - 1)
    }
}

/// Every sequence extends itself.
pub proof fn lemma_extends_refl(a: Seq<u64>)
    ensures
        extends(a, a),
{
    assert(a.take(a.len() as int) =~= a);
}

/// Extension is transitive.
pub proof fn lemma_extends_trans(a: Seq<u64>, b: Seq<u64>, c: Seq<u64>)
    requires
        extends(a, b),
        extends(b, c),
    ensures
        extends(a, c),
{
    assert(c.take(a.len() as int) =~= b.take(a.len() as int));
}

/// A prefix of an ordered sequence is ordered.
pub proof fn lemma_prefix_ordered(a: Seq<u64>, b: Seq<u64>)
    requires
        extends(a, b),
        ordered(b),
    ensures
        ordered(a),
{
    assert forall|i: int, j: int| 0 <= i <= j < a.len() implies a[i] <= a[j] by {
        assert(a[i] == b.take(a.len() as int)[i]);
        assert(a[j] == b.take(a.len() as int)[j]);
    }
}

} // verus!
