//! Ranges between two bounded integers.

use crate::bounded_int::BoundedInt;
use vstd::prelude::*;

verus! {

/// A range between two [`BoundedInt`]s, inclusive on both ends.
#[must_use]
pub struct BoundedIntRangeInclusive<const LOW: u32, const HIGH: u32> {
    /// Where the range currently is. Starts at the first item.
    pub(super) pointer: BoundedInt<LOW, HIGH>,
    /// The last item that will be handed out.
    pub(super) end: BoundedInt<LOW, HIGH>,
    /// Whether the last item has been handed out.
    pub(super) finished: bool,
}

/// A range between two [`BoundedInt`]s, inclusive at the start and exclusive
/// at the end.
#[must_use]
pub struct BoundedIntRange<const LOW: u32, const HIGH: u32> {
    /// Where the range currently is. Starts at the first item.
    pub(super) pointer: BoundedInt<LOW, HIGH>,
    /// One above the last item that will be handed out.
    pub(super) end: BoundedInt<LOW, HIGH>,
}

impl<const LOW: u32, const HIGH: u32> BoundedIntRange<LOW, HIGH> {
    /// The numbers `from, from + 1, ..` below `to`, in rising order.
    pub open spec fn span(from: int, to: int) -> Seq<int> {
        Seq::new(
            if to > from {
                (to - from) as nat
            } else {
                0
            },
            |i: int| from + i,
        )
    }

    /// The numbers that the range has yet to hand out.
    pub closed spec fn remaining(self) -> Seq<int> {
        Self::span(self.pointer.value(), self.end.value())
    }

    /// The range that starts at `from` and stops before `to`.
    pub(crate) fn between(from: BoundedInt<LOW, HIGH>, to: BoundedInt<LOW, HIGH>) -> (r: Self)
        ensures
            r.remaining() == Self::span(from.value(), to.value()),
    {
        BoundedIntRange { end: to, pointer: from }
    }

    /// Hands out the next item and steps past it, or `None` once the range
    /// is used up.
    pub fn next(&mut self) -> (r: Option<BoundedInt<LOW, HIGH>>)
        ensures
            old(self).remaining().len() == 0 ==> r is None && final(self).remaining()
                == old(self).remaining(),
            old(self).remaining().len() > 0 ==> r is Some && r->Some_0.value() == old(
                self,
            ).remaining()[0] && final(self).remaining() == old(self).remaining().drop_first(),
    {
        let at: i32 = self.pointer.as_unbounded();
        let end: i32 = self.end.as_unbounded();
        if at < end {
            let to_return = self.pointer;
            self.pointer = BoundedInt(at + 1);
            assert(self.remaining() =~= old(self).remaining().drop_first());
            Some(to_return)
        } else {
            None
        }
    }

    /// Every item that the range has yet to hand out, in order.
    pub fn collect(self) -> (r: Vec<BoundedInt<LOW, HIGH>>)
        ensures
            r@.len() == self.remaining().len(),
            forall|i: int| 0 <= i < r@.len() ==> (#[trigger] r@[i]).value() == self.remaining()[i],
    {
        let mut out: Vec<BoundedInt<LOW, HIGH>> = Vec::new();
        let mut range = self;
        loop
            invariant
                out@.len() + range.remaining().len() == self.remaining().len(),
                forall|i: int|
                    0 <= i < out@.len() ==> (#[trigger] out@[i]).value() == self.remaining()[i],
                forall|i: int|
                    0 <= i < range.remaining().len() ==> #[trigger] range.remaining()[i]
                        == self.remaining()[out@.len() + i],
            ensures
                out@.len() == self.remaining().len(),
                forall|i: int|
                    0 <= i < out@.len() ==> (#[trigger] out@[i]).value() == self.remaining()[i],
            decreases range.remaining().len(),
        {
            let ghost before = range.remaining();
            match range.next() {
                Some(item) => {
                    assert(before[0] == self.remaining()[out@.len() as int]);
                    out.push(item);
                    assert forall|i: int| 0 <= i < range.remaining().len() implies #[trigger] range.remaining()[i]
                        == self.remaining()[out@.len() + i] by {
                        assert(range.remaining()[i] == before[i + 1]);
                    }
                },
                None => {
                    break ;
                },
            }
        }
        out
    }
}

impl<const LOW: u32, const HIGH: u32> BoundedIntRangeInclusive<LOW, HIGH> {
    /// The range that starts at `from` and stops after `to`.
    pub(crate) fn between(from: BoundedInt<LOW, HIGH>, to: BoundedInt<LOW, HIGH>) -> (r: Self)
        ensures
            r.remaining() == BoundedIntRange::<LOW, HIGH>::span(from.value(), to.value() + 1),
    {
        BoundedIntRangeInclusive { end: to, pointer: from, finished: false }
    }

    /// The numbers that the range has yet to hand out.
    pub closed spec fn remaining(self) -> Seq<int> {
        if self.finished {
            BoundedIntRange::<LOW, HIGH>::span(self.pointer.value(), self.end.value())
        } else {
            BoundedIntRange::<LOW, HIGH>::span(self.pointer.value(), self.end.value() + 1)
        }
    }

    /// Hands out the next item and steps past it, or `None` once the range
    /// is used up.
    pub fn next(&mut self) -> (r: Option<BoundedInt<LOW, HIGH>>)
        ensures
            old(self).remaining().len() == 0 ==> r is None && final(self).remaining()
                == old(self).remaining(),
            old(self).remaining().len() > 0 ==> r is Some && r->Some_0.value() == old(
                self,
            ).remaining()[0] && final(self).remaining() == old(self).remaining().drop_first(),
    {
        let at: i32 = self.pointer.as_unbounded();
        let end: i32 = self.end.as_unbounded();
        if at > end {
            None
        } else if at == end {
            if !self.finished {
                self.finished = true;
                assert(self.remaining() =~= old(self).remaining().drop_first());
                Some(self.pointer)
            } else {
                None
            }
        } else {
            let to_return = self.pointer;
            self.pointer = BoundedInt(at + 1);
            assert(self.remaining() =~= old(self).remaining().drop_first());
            Some(to_return)
        }
    }

    /// Every item that the range has yet to hand out, in order.
    pub fn collect(self) -> (r: Vec<BoundedInt<LOW, HIGH>>)
        ensures
            r@.len() == self.remaining().len(),
            forall|i: int| 0 <= i < r@.len() ==> (#[trigger] r@[i]).value() == self.remaining()[i],
    {
        let mut out: Vec<BoundedInt<LOW, HIGH>> = Vec::new();
        let mut range = self;
        loop
            invariant
                out@.len() + range.remaining().len() == self.remaining().len(),
                forall|i: int|
                    0 <= i < out@.len() ==> (#[trigger] out@[i]).value() == self.remaining()[i],
                forall|i: int|
                    0 <= i < range.remaining().len() ==> #[trigger] range.remaining()[i]
                        == self.remaining()[out@.len() + i],
            ensures
                out@.len() == self.remaining().len(),
                forall|i: int|
                    0 <= i < out@.len() ==> (#[trigger] out@[i]).value() == self.remaining()[i],
            decreases range.remaining().len(),
        {
            let ghost before = range.remaining();
            match range.next() {
                Some(item) => {
                    assert(before[0] == self.remaining()[out@.len() as int]);
                    out.push(item);
                    assert forall|i: int| 0 <= i < range.remaining().len() implies #[trigger] range.remaining()[i]
                        == self.remaining()[out@.len() + i] by {
                        assert(range.remaining()[i] == before[i + 1]);
                    }
                },
                None => {
                    break ;
                },
            }
        }
        out
    }
}

} // verus!
