//! Small helpers: a branch-free selector, a running maximum, and sinks that
//! moves are pushed into.

use vstd::prelude::*;

verus! {

/// The smaller of two bytes.
pub fn const_min_u8(left: u8, right: u8) -> (m: u8)
    ensures
        m == if left < right { left } else { right },
{
    if left < right {
        left
    } else {
        right
    }
}

/// Selects one of two ready values by a condition.
pub fn pick<T: Copy>(condition: bool, if_true: T, if_false: T) -> (chosen: T)
    ensures
        chosen == if condition { if_true } else { if_false },
{
    if condition {
        if_true
    } else {
        if_false
    }
}

/// Keeps the best-scored item pushed so far. Among equal scores the one
/// pushed last wins.
pub struct Max<T> {
    pub item: Option<T>,
    pub value: i16,
}

impl<T> Max<T> {
    /// An empty accumulator whose score starts at `min`.
    pub fn new(min: i16) -> (m: Self)
        ensures
            m.item is None,
            m.value == min,
    {
        Self { item: None, value: min }
    }

    /// Offers `obj` with score `value`; it is kept when the score is at
    /// least the best so far.
    pub fn push(&mut self, obj: T, value: i16)
        ensures
            value >= old(self).value ==> final(self).item == Some(obj) && final(self).value == value,
            value < old(self).value ==> *final(self) == *old(self),
    {
        if value >= self.value {
            self.item = Some(obj);
            self.value = value;
        }
    }

    /// The best score so far.
    pub fn value(&self) -> (v: i16)
        ensures
            v == self.value,
    {
        self.value
    }
}

impl<T: Copy> Max<T> {
    /// The item that holds the best score, if any was kept.
    pub fn item(&self) -> (it: Option<T>)
        ensures
            it == self.item,
    {
        self.item
    }
}

/// Something values can be pushed into, one at a time.
pub trait Push<T> {
    /// The sink is in a state that `push` keeps.
    spec fn wf(&self) -> bool;

    /// What has been pushed, in order.
    spec fn pushed(&self) -> Seq<T>;

    /// What the sink holds beneath what has been pushed. A push leaves it
    /// alone.
    spec fn rest(&self) -> Seq<T>;

    fn push(&mut self, value: T)
        requires
            old(self).wf(),
        ensures
            final(self).wf(),
            final(self).pushed() == old(self).pushed().push(value),
            final(self).rest() == old(self).rest(),
    ;
}

/// The count of `n` pushes: `n`, held at the largest `usize` from there
/// on.
pub open spec fn capped(n: nat) -> usize {
    if n < usize::MAX {
        n as usize
    } else {
        usize::MAX
    }
}

/// A sink that only counts what is pushed.
pub struct PushCount<T> {
    pub count: usize,
    pub seen: Ghost<Seq<T>>,
}

impl<T> Push<T> for PushCount<T> {
    open spec fn wf(&self) -> bool {
        self.count == capped(self.seen@.len())
    }

    open spec fn pushed(&self) -> Seq<T> {
        self.seen@
    }

    open spec fn rest(&self) -> Seq<T> {
        Seq::empty()
    }

    fn push(&mut self, value: T) {
        if self.count < usize::MAX {
            self.count += 1;
        }
        self.seen = Ghost(self.seen@.push(value));
    }
}

impl<T> PushCount<T> {
    /// The number of values pushed.
    pub fn count(&self) -> (n: usize)
        ensures
            n == self.count,
    {
        self.count
    }

    pub fn new() -> (c: Self)
        ensures
            c.wf(),
            c.count == 0,
            c.pushed() == Seq::<T>::empty(),
    {
        Self { count: 0, seen: Ghost(Seq::empty()) }
    }
}

impl<T> Push<T> for Vec<T> {
    open spec fn wf(&self) -> bool {
        true
    }

    open spec fn pushed(&self) -> Seq<T> {
        self@
    }

    open spec fn rest(&self) -> Seq<T> {
        Seq::empty()
    }

    fn push(&mut self, value: T) {
        Vec::push(self, value);
    }
}

/// A stack of values cut into segments. Values are pushed onto and popped
/// off the top segment; a new segment is opened above it with `extend` and
/// given up again with `release`, which forgets what the segment held. One
/// buffer thus serves a whole recursion, each level with a segment of its
/// own.
pub struct SegVec<T> {
    pub vec: Vec<T>,
    pub begin: usize,
}

impl<T> SegVec<T> {
    /// The top segment starts inside the buffer.
    pub open spec fn segs_ok(&self) -> bool {
        self.begin <= self.vec@.len()
    }

    /// What the top segment holds.
    pub open spec fn seg(&self) -> Seq<T> {
        self.vec@.subrange(self.begin as int, self.vec@.len() as int)
    }

    /// What lies beneath the top segment.
    pub open spec fn below(&self) -> Seq<T> {
        self.vec@.subrange(0, self.begin as int)
    }

    /// An empty stack with one empty segment.
    pub fn new() -> (s: Self)
        ensures
            s.segs_ok(),
            s.seg() == Seq::<T>::empty(),
            s.below() == Seq::<T>::empty(),
    {
        let s = Self { vec: Vec::new(), begin: 0 };
        proof {
            assert(s.seg() =~= Seq::<T>::empty());
            assert(s.below() =~= Seq::<T>::empty());
        }
        s
    }

    /// Opens a new, empty segment on top of everything held so far, and
    /// returns the mark that `release` needs to come back.
    pub fn extend(&mut self) -> (mark: usize)
        requires
            old(self).segs_ok(),
        ensures
            final(self).segs_ok(),
            mark == old(self).begin,
            final(self).vec == old(self).vec,
            final(self).below() == old(self).vec@,
            final(self).seg() == Seq::<T>::empty(),
    {
        let mark: usize = self.begin;
        self.begin = self.vec.len();
        proof {
            assert(self.below() =~= self.vec@);
            assert(self.seg() =~= Seq::<T>::empty());
        }
        mark
    }

    /// Gives the top segment up, with all it holds, and makes the segment
    /// beneath it, which starts at `mark`, the top again.
    pub fn release(&mut self, mark: usize)
        requires
            old(self).segs_ok(),
            mark <= old(self).begin,
        ensures
            final(self).segs_ok(),
            final(self).begin == mark,
            final(self).vec@ == old(self).below(),
    {
        self.vec.truncate(self.begin);
        self.begin = mark;
    }

    /// Takes the last value off the top segment, if it holds one.
    pub fn pop(&mut self) -> (value: Option<T>)
        requires
            old(self).segs_ok(),
        ensures
            final(self).segs_ok(),
            final(self).begin == old(self).begin,
            final(self).below() == old(self).below(),
            old(self).seg().len() == 0 ==> value is None && final(self).seg() == old(self).seg(),
            old(self).seg().len() > 0 ==> value == Some(old(self).seg().last()) && final(self).seg() == old(
                self,
            ).seg().drop_last(),
    {
        if self.begin < self.vec.len() {
            let value = self.vec.pop();
            proof {
                assert(self.seg() =~= old(self).seg().drop_last());
                assert(self.below() =~= old(self).below());
            }
            value
        } else {
            None
        }
    }

    /// The number of values in the top segment.
    pub fn len(&self) -> (n: usize)
        requires
            self.segs_ok(),
        ensures
            n == self.seg().len(),
    {
        self.vec.len() - self.begin
    }

    pub fn is_empty(&self) -> (b: bool)
        requires
            self.segs_ok(),
        ensures
            b == (self.seg().len() == 0),
    {
        self.vec.len() == self.begin
    }

    /// The top segment as a slice.
    pub fn as_slice(&self) -> (slice: &[T])
        requires
            self.segs_ok(),
        ensures
            slice@ == self.seg(),
    {
        vstd::slice::slice_subrange(self.vec.as_slice(), self.begin, self.vec.len())
    }

    /// Takes the value at `index` out of the top segment and puts the
    /// segment's last value in its place.
    pub fn swap_remove(&mut self, index: usize) -> (removed: T)
        requires
            old(self).segs_ok(),
            index < old(self).seg().len(),
        ensures
            final(self).segs_ok(),
            final(self).begin == old(self).begin,
            final(self).below() == old(self).below(),
            removed == old(self).seg()[index as int],
            final(self).seg() == old(self).seg().update(index as int, old(self).seg().last()).drop_last(),
    {
        let total: usize = self.vec.len();
        assert(self.seg().len() == total - self.begin);
        let removed = self.vec.swap_remove(self.begin + index);
        proof {
            assert(self.seg() =~= old(self).seg().update(index as int, old(self).seg().last()).drop_last());
            assert(self.below() =~= old(self).below());
        }
        removed
    }
}

impl<T> Push<T> for SegVec<T> {
    open spec fn wf(&self) -> bool {
        self.segs_ok()
    }

    open spec fn pushed(&self) -> Seq<T> {
        self.seg()
    }

    open spec fn rest(&self) -> Seq<T> {
        self.below()
    }

    fn push(&mut self, value: T) {
        self.vec.push(value);
        proof {
            assert(self.seg() =~= old(self).seg().push(value));
            assert(self.below() =~= old(self).below());
        }
    }
}

} // verus!
