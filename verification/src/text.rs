//! Rejoining two views of one text.
//!
//! A text is stored as UTF-8. Its views are counted in bytes, and a view of a
//! text holds text only where it begins and ends between two characters.
use vstd::prelude::*;
use vstd::utf8::*;
use crate::span::Span;

verus! {

/// `span` lies in `bytes` and begins and ends between two characters, so the
/// bytes it covers are text of their own.
pub open spec fn holds_text(bytes: Seq<u8>, span: Span) -> bool {
    &&& span.lies_in(bytes.len())
    &&& is_char_boundary(bytes, span.start as int)
    &&& is_char_boundary(bytes, span.end())
}

/// The characters that the bytes under `span` encode.
pub open spec fn text_of(bytes: Seq<u8>, span: Span) -> Seq<char>
    recommends
        holds_text(bytes, span),
{
    decode_utf8(span.covered(bytes))
}

/// Between two character boundaries of a text the bytes are text, and a
/// boundary of the whole that lies between them is a boundary of the part.
pub proof fn lemma_part_of_text(bytes: Seq<u8>, from: int, mid: int, to: int)
    requires
        valid_utf8(bytes),
        0 <= from <= mid <= to <= bytes.len(),
        is_char_boundary(bytes, from),
        is_char_boundary(bytes, mid),
        is_char_boundary(bytes, to),
    ensures
        valid_utf8(bytes.subrange(from, to)),
        is_char_boundary(bytes.subrange(from, to), mid - from),
{
    let tail = bytes.subrange(from, bytes.len() as int);
    let part = bytes.subrange(from, to);
    valid_utf8_split(bytes, from);
    assert(valid_utf8(tail));
    assert(is_char_boundary(tail, to - from)) by {
        lemma_boundary_moves(bytes, tail, from, to);
    }
    valid_utf8_split(tail, to - from);
    assert(tail.subrange(0, to - from) =~= part);
    assert(is_char_boundary(part, mid - from)) by {
        lemma_boundary_moves(bytes, part, from, mid);
    }
}

/// A boundary of a text is a boundary of every part of the text that is
/// text itself and holds the position.
proof fn lemma_boundary_moves(bytes: Seq<u8>, part: Seq<u8>, from: int, at: int)
    requires
        valid_utf8(bytes),
        valid_utf8(part),
        0 <= from <= at <= from + part.len() <= bytes.len(),
        part == bytes.subrange(from, from + part.len()),
        is_char_boundary(bytes, at),
    ensures
        is_char_boundary(part, at - from),
{
    if at == from {
    } else if at - from == part.len() {
        is_char_boundary_start_end_of_seq(part);
    } else {
        is_char_boundary_iff_not_is_continuation_byte(bytes, at);
        is_char_boundary_iff_not_is_continuation_byte(part, at - from);
        assert(part[at - from] == bytes[at]);
    }
}

/// Two spans of text that are adjacent join to a span of text, and the text
/// of the whole is the text of the first followed by the text of the second.
pub proof fn lemma_joined_text(bytes: Seq<u8>, a: Span, b: Span)
    requires
        valid_utf8(bytes),
        holds_text(bytes, a),
        holds_text(bytes, b),
        b.wf(),
        a.adjacent(b),
    ensures
        holds_text(bytes, a.joined(b)),
        a.joined(b).covered(bytes) == a.covered(bytes) + b.covered(bytes),
        valid_utf8(a.joined(b).covered(bytes)),
        text_of(bytes, a.joined(b)) == text_of(bytes, a) + text_of(bytes, b),
{
    let whole = a.joined(b);
    let part = whole.covered(bytes);
    lemma_part_of_text(bytes, a.start as int, b.start as int, b.end());
    assert(part =~= a.covered(bytes) + b.covered(bytes));
    decode_utf8_split(part, a.len as int);
    assert(part.subrange(0, a.len as int) =~= a.covered(bytes));
    assert(part.subrange(a.len as int, part.len() as int) =~= b.covered(bytes));
}

/// A text cut in two between any two of its characters and joined again is
/// the text: both pieces hold text, they are adjacent, and the text of the
/// first followed by the text of the second is the text that was cut.
pub proof fn lemma_cut_text_then_rejoin(text: Seq<char>, at: usize)
    requires
        encode_utf8(text).len() <= usize::MAX,
        is_char_boundary(encode_utf8(text), at as int),
    ensures
        ({
            let bytes = encode_utf8(text);
            let head = Span { start: 0, len: at };
            let tail = Span { start: at, len: (bytes.len() - at) as usize };
            &&& holds_text(bytes, head)
            &&& holds_text(bytes, tail)
            &&& head.try_joined(tail) == Some(Span { start: 0, len: bytes.len() as usize })
            &&& text_of(bytes, head) + text_of(bytes, tail) == text
            &&& text_of(bytes, head.joined(tail)) == text
        }),
{
    let bytes = encode_utf8(text);
    let head = Span { start: 0, len: at };
    let tail = Span { start: at, len: (bytes.len() - at) as usize };
    encode_utf8_valid_utf8(text);
    encode_utf8_decode_utf8(text);
    is_char_boundary_start_end_of_seq(bytes);
    lemma_joined_text(bytes, head, tail);
    assert(head.joined(tail).covered(bytes) =~= bytes);
}

/// Joining two views of a text that lie side by side.
///
/// The text is the storage; `a` and `b` say, in bytes, where in it the two
/// views lie. Nothing is copied and no byte is decoded again: the result is
/// cut from the storage at two places that are known to lie between
/// characters.
pub trait StrExt: View<V = Seq<char>> {
    /// The text that covers `a` and `b`, which the caller knows to be
    /// adjacent in this order.
    fn rejoin(&self, a: Span, b: Span) -> (whole: &str)
        requires
            holds_text(encode_utf8(self@), a),
            holds_text(encode_utf8(self@), b),
            a.adjacent(b),
        ensures
            whole@ == text_of(encode_utf8(self@), a) + text_of(encode_utf8(self@), b),
            encode_utf8(whole@) == a.joined(b).covered(encode_utf8(self@)),
    ;

    /// The text that covers `a` and `b` where `a` ends exactly where `b`
    /// begins, `None` otherwise.
    fn try_rejoin(&self, a: Span, b: Span) -> (joined: Option<&str>)
        requires
            holds_text(encode_utf8(self@), a),
            holds_text(encode_utf8(self@), b),
        ensures
            joined is Some <==> a.adjacent(b),
            joined matches Some(whole) ==> {
                &&& whole@ == text_of(encode_utf8(self@), a) + text_of(encode_utf8(self@), b)
                &&& encode_utf8(whole@) == a.joined(b).covered(encode_utf8(self@))
            },
    ;
}

impl StrExt for str {
    fn rejoin(&self, a: Span, b: Span) -> (whole: &str) {
        self.try_rejoin(a, b).expect("the input string slices must be adjacent in memory")
    }

    fn try_rejoin(&self, a: Span, b: Span) -> (joined: Option<&str>) {
        // The bytes of a text are a slice, so their number is a machine number.
        let stored: &[u8] = self.as_bytes();
        assert(stored@.len() == stored.len());
        match a.try_join(b) {
            Some(whole) => {
                proof {
                    let bytes = encode_utf8(self@);
                    encode_utf8_valid_utf8(self@);
                    lemma_joined_text(bytes, a, b);
                    is_char_boundary_start_end_of_seq(bytes);
                    lemma_part_of_text(
                        bytes,
                        whole.start as int,
                        whole.end(),
                        bytes.len() as int,
                    );
                }
                let (_, rest) = self.split_at(whole.start);
                let (text, _) = rest.split_at(whole.len);
                proof {
                    encode_utf8_decode_utf8(text@);
                    assert(encode_utf8(text@) =~= whole.covered(encode_utf8(self@)));
                }
                Some(text)
            },
            None => None,
        }
    }
}

} // verus!
