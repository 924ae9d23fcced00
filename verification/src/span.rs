//! Spans: where a view lies in the storage it borrows from.
//!
//! A view never owns memory. It is named by two numbers, the position of its
//! first element and the count of its elements, both in the units of the
//! storage (elements of a slice, bytes of a text). Two spans can be joined
//! when the first ends exactly where the second begins.
use vstd::prelude::*;

verus! {

/// The position of a view's first element and the number of its elements.
#[derive(Clone, Copy, Debug, PartialEq, Eq, Structural)]
pub struct Span {
    pub start: usize,
    pub len: usize,
}

impl Span {
    /// The position one past the last element.
    pub open spec fn end(self) -> int {
        self.start + self.len
    }

    /// The end of a well-formed span is still a position of the machine.
    pub open spec fn wf(self) -> bool {
        self.end() <= usize::MAX
    }

    /// The span lies inside a storage of `n` elements.
    pub open spec fn lies_in(self, n: nat) -> bool {
        self.end() <= n
    }

    /// `position` is the position of one of the span's elements.
    pub open spec fn holds(self, position: int) -> bool {
        self.start <= position < self.end()
    }

    /// The elements of `storage` that the span covers.
    pub open spec fn covered<T>(self, storage: Seq<T>) -> Seq<T>
        recommends
            self.lies_in(storage.len()),
    {
        storage.subrange(self.start as int, self.end())
    }

    /// `self` ends exactly where `next` begins. The order matters: a span
    /// that begins where `self` ends is adjacent, one that ends where `self`
    /// begins is not.
    pub open spec fn adjacent(self, next: Span) -> bool {
        self.end() == next.start
    }

    /// The span that starts with `self` and covers `self` and `next`.
    pub open spec fn joined(self, next: Span) -> Span
        recommends
            self.adjacent(next),
            next.wf(),
    {
        Span { start: self.start, len: (self.len + next.len) as usize }
    }

    /// The joined span where the two are adjacent, nothing otherwise.
    pub open spec fn try_joined(self, next: Span) -> Option<Span> {
        if self.adjacent(next) {
            Some(self.joined(next))
        } else {
            None
        }
    }

    /// A span of `len` elements that begins at `start`.
    pub fn new(start: usize, len: usize) -> (span: Span)
        requires
            start + len <= usize::MAX,
        ensures
            span == (Span { start, len }),
            span.wf(),
    {
        Span { start, len }
    }

    /// The span, counted in bytes, of `count` elements of `size` bytes each
    /// whose first element has the address `address`: it starts at `address`
    /// and is `count * size` long. `None` where the end of that span is no
    /// position of the machine.
    pub fn of_elements(address: usize, count: usize, size: usize) -> (span: Option<Span>)
        ensures
            span is Some <==> address + count * size <= usize::MAX,
            span matches Some(s) ==> s.start == address && s.len == count * size && s.wf(),
    {
        match count.checked_mul(size) {
            Some(len) => match address.checked_add(len) {
                Some(_) => Some(Span { start: address, len }),
                None => None,
            },
            None => None,
        }
    }

    /// The position one past the last element. For an empty span this is its
    /// start; nothing is read to compute it.
    pub fn past_end(&self) -> (position: usize)
        requires
            self.wf(),
        ensures
            position == self.end(),
    {
        self.start + self.len
    }

    /// Decides whether `self` ends exactly where `next` begins.
    pub fn is_adjacent(&self, next: &Span) -> (yes: bool)
        requires
            self.wf(),
        ensures
            yes == self.adjacent(*next),
    {
        self.past_end() == next.start
    }

    /// Joins two spans that are adjacent in this order, or returns `None`
    /// where they are not (a gap, an overlap, the reverse order).
    pub fn try_join(self, next: Span) -> (joined: Option<Span>)
        requires
            self.wf(),
            next.wf(),
        ensures
            joined == self.try_joined(next),
            joined is Some <==> self.adjacent(next),
            joined matches Some(whole) ==> {
                &&& whole.wf()
                &&& whole.start == self.start
                &&& whole.len == self.len + next.len
                &&& whole.end() == next.end()
            },
    {
        if self.is_adjacent(&next) {
            Some(Span { start: self.start, len: self.len + next.len })
        } else {
            None
        }
    }

    /// Joins two spans that the caller knows to be adjacent.
    pub fn join(self, next: Span) -> (whole: Span)
        requires
            self.wf(),
            next.wf(),
            self.adjacent(next),
        ensures
            whole == self.joined(next),
            whole.wf(),
            whole.start == self.start,
            whole.len == self.len + next.len,
            whole.end() == next.end(),
    {
        self.try_join(next).expect("the spans must be adjacent")
    }
}

/// A span cut in two at any of its positions joins to itself again: the
/// pieces are adjacent, and the joined span has the start and the length of
/// the span that was cut. This holds for a cut at either end too, where one
/// piece is empty.
pub proof fn lemma_cut_then_join(whole: Span, at: usize)
    requires
        whole.wf(),
        at <= whole.len,
    ensures
        ({
            let head = Span { start: whole.start, len: at };
            let tail = Span { start: (whole.start + at) as usize, len: (whole.len - at) as usize };
            &&& head.wf()
            &&& tail.wf()
            &&& head.adjacent(tail)
            &&& head.try_joined(tail) == Some(whole)
        }),
{
}

/// The joined span reaches no further than the two spans did: it lies in
/// every storage in which both lie, and its positions are those of the first
/// span and those of the second, each of them once.
pub proof fn lemma_joined_covers_both(a: Span, b: Span, n: nat, position: int)
    requires
        a.lies_in(n),
        b.lies_in(n),
        b.wf(),
        a.adjacent(b),
    ensures
        a.joined(b).lies_in(n),
        a.joined(b).holds(position) <==> a.holds(position) || b.holds(position),
        !(a.holds(position) && b.holds(position)),
{
}

/// Two spans that join in one order do not join in the other, unless both
/// are empty.
pub proof fn lemma_order_matters(a: Span, b: Span)
    requires
        a.adjacent(b),
        a.len > 0 || b.len > 0,
    ensures
        !b.adjacent(a),
        b.try_joined(a) is None,
{
}

/// Two empty spans are adjacent only at one and the same position, and a
/// span is adjacent to itself only where it is empty.
pub proof fn lemma_empty_spans(a: Span, b: Span)
    ensures
        a.len == 0 && b.len == 0 ==> (a.adjacent(b) <==> a.start == b.start),
        a.adjacent(a) <==> a.len == 0,
{
}

/// Whether two spans join depends on the spans alone. So where one attempt
/// on two spans that are not adjacent came back empty, every other attempt
/// on the same two spans comes back empty too.
pub proof fn lemma_failure_repeats(a: Span, b: Span, first: Option<Span>, second: Option<Span>)
    requires
        !a.adjacent(b),
        first == a.try_joined(b),
        second == a.try_joined(b),
    ensures
        first is None,
        second is None,
{
}

/// Adjacency does not depend on the unit in which positions are counted.
/// Take a storage whose first element has the address `base` and whose
/// elements are `size` bytes each, with `size` above zero: the address of
/// the first span plus its length times `size` is the address of the second
/// exactly where the two spans, counted in elements, are adjacent.
pub proof fn lemma_adjacency_in_bytes(base: int, size: int, a: Span, b: Span)
    requires
        size > 0,
    ensures
        (base + a.start * size) + a.len * size == base + b.start * size <==> a.adjacent(b),
{
    assert((a.start + a.len) * size == a.start * size + a.len * size) by (nonlinear_arith);
    assert(((a.start + a.len) * size == b.start * size) <==> (a.start + a.len == b.start))
        by (nonlinear_arith)
        requires
            size > 0,
    ;
}

} // verus!
