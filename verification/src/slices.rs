//! Rejoining two views of one slice.
use vstd::prelude::*;
use crate::span::Span;

verus! {

/// The storage with the elements under `span` exchanged for `cells`.
pub open spec fn replaced<T>(storage: Seq<T>, span: Span, cells: Seq<T>) -> Seq<T>
    recommends
        span.lies_in(storage.len()),
{
    storage.subrange(0, span.start as int) + cells + storage.subrange(
        span.end(),
        storage.len() as int,
    )
}

/// Joining two views of a slice that lie side by side.
///
/// The slice is the storage; `a` and `b` say where in it the two views lie,
/// and both must lie in it. Nothing is copied: what comes back borrows from
/// the storage itself. Whether the views join is decided from their spans
/// alone, before any element is reached.
pub trait SliceExt<T>: View<V = Seq<T>> {
    /// The view that covers `a` and `b`, which the caller knows to be
    /// adjacent in this order.
    fn rejoin(&self, a: Span, b: Span) -> (whole: &Self)
        requires
            a.lies_in(self@.len()),
            b.lies_in(self@.len()),
            a.adjacent(b),
        ensures
            whole@ == a.covered(self@) + b.covered(self@),
            whole@ == a.joined(b).covered(self@),
            whole@.len() == a.len + b.len,
    ;

    /// The exclusive view that covers `a` and `b`, which the caller knows to
    /// be adjacent in this order. While it lives the storage cannot be
    /// reached in any other way; what is written through it is what the
    /// storage holds under the two spans afterwards, and the rest of the
    /// storage stays as it was.
    fn rejoin_mut(&mut self, a: Span, b: Span) -> (whole: &mut Self)
        requires
            a.lies_in(old(self)@.len()),
            b.lies_in(old(self)@.len()),
            a.adjacent(b),
        ensures
            whole@ == a.covered(old(self)@) + b.covered(old(self)@),
            whole@ == a.joined(b).covered(old(self)@),
            whole@.len() == a.len + b.len,
            final(self)@ == replaced(old(self)@, a.joined(b), final(whole)@),
    ;

    /// The view that covers `a` and `b` where `a` ends exactly where `b`
    /// begins, `None` otherwise.
    fn try_rejoin(&self, a: Span, b: Span) -> (joined: Option<&Self>)
        requires
            a.lies_in(self@.len()),
            b.lies_in(self@.len()),
        ensures
            joined is Some <==> a.adjacent(b),
            joined matches Some(whole) ==> {
                &&& whole@ == a.covered(self@) + b.covered(self@)
                &&& whole@ == a.joined(b).covered(self@)
                &&& whole@.len() == a.len + b.len
            },
    ;

    /// The exclusive view that covers `a` and `b` where `a` ends exactly
    /// where `b` begins, `None` otherwise. A failed attempt leaves the
    /// storage as it was.
    fn try_rejoin_mut(&mut self, a: Span, b: Span) -> (joined: Option<&mut Self>)
        requires
            a.lies_in(old(self)@.len()),
            b.lies_in(old(self)@.len()),
        ensures
            joined is Some <==> a.adjacent(b),
            joined matches Some(whole) ==> {
                &&& whole@ == a.covered(old(self)@) + b.covered(old(self)@)
                &&& whole@ == a.joined(b).covered(old(self)@)
                &&& whole@.len() == a.len + b.len
                &&& final(self)@ == replaced(old(self)@, a.joined(b), final(whole)@)
            },
            joined is None ==> final(self)@ == old(self)@,
    ;
}

impl<T> SliceExt<T> for [T] {
    fn rejoin(&self, a: Span, b: Span) -> (whole: &[T]) {
        self.try_rejoin(a, b).expect("the input slices must be adjacent in memory")
    }

    fn rejoin_mut(&mut self, a: Span, b: Span) -> (whole: &mut [T]) {
        self.try_rejoin_mut(a, b).expect("the input slices must be adjacent in memory")
    }

    fn try_rejoin(&self, a: Span, b: Span) -> (joined: Option<&[T]>) {
        assert(self@.len() == self.len());
        match a.try_join(b) {
            Some(whole) => {
                assert(a.covered(self@) + b.covered(self@) =~= whole.covered(self@));
                Some(&self[whole.start..whole.past_end()])
            },
            None => None,
        }
    }

    fn try_rejoin_mut(&mut self, a: Span, b: Span) -> (joined: Option<&mut [T]>) {
        assert(self@.len() == self.len());
        match a.try_join(b) {
            Some(whole) => {
                assert(a.covered(self@) + b.covered(self@) =~= whole.covered(self@));
                let (_, rest) = self.split_at_mut(whole.start);
                let (cells, _) = rest.split_at_mut(whole.len);
                Some(cells)
            },
            None => None,
        }
    }
}

/// What the joined view of two adjacent views holds: at each position the
/// element that the storage holds there, which is the element of the first
/// view for a position below its length and the element of the second view
/// for the others.
pub proof fn lemma_joined_content<T>(storage: Seq<T>, a: Span, b: Span, i: int)
    requires
        a.lies_in(storage.len()),
        b.lies_in(storage.len()),
        b.wf(),
        a.adjacent(b),
        0 <= i < a.len + b.len,
    ensures
        a.joined(b).covered(storage).len() == a.len + b.len,
        a.joined(b).covered(storage) == a.covered(storage) + b.covered(storage),
        a.joined(b).covered(storage)[i] == storage[a.start + i],
        i < a.len ==> a.joined(b).covered(storage)[i] == a.covered(storage)[i],
        i >= a.len ==> a.joined(b).covered(storage)[i] == b.covered(storage)[i - a.len],
{
    assert(a.joined(b).covered(storage) =~= a.covered(storage) + b.covered(storage));
}

/// A storage cut in two at any of its positions and joined again is the
/// storage: the joined view starts where the storage starts, is as long as
/// the storage and holds what the storage holds.
pub proof fn lemma_cut_then_rejoin<T>(storage: Seq<T>, at: usize)
    requires
        storage.len() <= usize::MAX,
        at <= storage.len(),
    ensures
        ({
            let head = Span { start: 0, len: at };
            let tail = Span { start: at, len: (storage.len() - at) as usize };
            &&& head.lies_in(storage.len())
            &&& tail.lies_in(storage.len())
            &&& head.try_joined(tail) == Some(Span { start: 0, len: storage.len() as usize })
            &&& head.joined(tail).covered(storage) == storage
            &&& head.covered(storage) + tail.covered(storage) == storage
        }),
{
    let head = Span { start: 0, len: at };
    let tail = Span { start: at, len: (storage.len() - at) as usize };
    assert(head.joined(tail).covered(storage) =~= storage);
    assert(head.covered(storage) + tail.covered(storage) =~= storage);
}

/// What a storage holds after the elements under a span were exchanged for
/// as many others: under the span the new elements, elsewhere what it held.
pub proof fn lemma_replaced_content<T>(storage: Seq<T>, span: Span, cells: Seq<T>, i: int)
    requires
        span.lies_in(storage.len()),
        cells.len() == span.len,
        0 <= i < storage.len(),
    ensures
        replaced(storage, span, cells).len() == storage.len(),
        span.covered(replaced(storage, span, cells)) == cells,
        span.start <= i < span.end() ==> replaced(storage, span, cells)[i] == cells[i - span.start],
        !(span.start <= i < span.end()) ==> replaced(storage, span, cells)[i] == storage[i],
{
    assert(span.covered(replaced(storage, span, cells)) =~= cells);
}

} // verus!
