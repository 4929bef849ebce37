//! Streaming UTF-8 decoder: turns an arbitrarily-chunked byte stream into a
//! sequence of characters and flagged invalid bytes, retaining undecided
//! trailing bytes across calls so that no byte is lost or duplicated at chunk
//! boundaries.

use vstd::prelude::*;
use vstd::utf8::{
    decode_first_codepoint, is_scalar, length_of_first_scalar, valid_first_scalar,
};

use crate::chunk::ByteChunk;

verus! {

broadcast use vstd::seq_lib::group_seq_properties;

/// One decoded unit of the stream: either a validated Unicode scalar value or
/// exactly one byte that cannot begin or continue a valid UTF-8 encoding.
#[derive(Debug, Clone, Copy, PartialEq, Eq, PartialOrd, Ord, Structural)]
pub enum GetChars {
    /// A valid character.
    Char(char),
    /// A byte that cannot begin or continue a valid encoding.
    Invalid(u8),
}

/// The number of bytes in the UTF-8 sequence started by `b` as a leading byte,
/// or 0 when no valid sequence starts with `b`.
pub open spec fn utf8_seq_len(b: u8) -> int {
    if b < 0x80 {
        1
    } else if 0xC2 <= b && b <= 0xDF {
        2
    } else if 0xE0 <= b && b <= 0xEF {
        3
    } else if 0xF0 <= b && b <= 0xF4 {
        4
    } else {
        0
    }
}

/// Lowest admissible second byte of a sequence led by `lead`; the special
/// bounds rule out overlong encodings and scalars above 0x10FFFF.
pub open spec fn cont_lo(lead: u8) -> u8 {
    if lead == 0xE0 {
        0xA0
    } else if lead == 0xF0 {
        0x90
    } else {
        0x80
    }
}

/// Highest admissible second byte of a sequence led by `lead`; the special
/// bounds rule out surrogates and scalars above 0x10FFFF.
pub open spec fn cont_hi(lead: u8) -> u8 {
    if lead == 0xED {
        0x9F
    } else if lead == 0xF4 {
        0x8F
    } else {
        0xBF
    }
}

/// True when `b` is admissible as the continuation byte at position `pos`
/// (1-based) of a sequence led by `lead`.
pub open spec fn cont_in_range(lead: u8, pos: int, b: u8) -> bool {
    if pos == 1 {
        cont_lo(lead) <= b && b <= cont_hi(lead)
    } else {
        0x80 <= b && b <= 0xBF
    }
}

/// True when every continuation byte of `s` before position `k` is admissible
/// for the leading byte `s[0]`.
pub open spec fn conts_ok_upto(s: Seq<u8>, k: int) -> bool {
    forall|j: int| 1 <= j < k ==> cont_in_range(s[0], j, #[trigger] s[j])
}

/// True when `s` begins with a full, valid UTF-8 encoding of one scalar.
pub open spec fn head_complete(s: Seq<u8>) -> bool {
    &&& s.len() > 0
    &&& utf8_seq_len(s[0]) > 0
    &&& s.len() >= utf8_seq_len(s[0])
    &&& conts_ok_upto(s, utf8_seq_len(s[0]))
}

/// True when `s` is a proper prefix of some valid UTF-8 encoding of one
/// scalar: every byte so far is consistent, but more bytes are needed.
pub open spec fn head_incomplete(s: Seq<u8>) -> bool {
    &&& s.len() > 0
    &&& utf8_seq_len(s[0]) > s.len()
    &&& conts_ok_upto(s, s.len() as int)
}

/// The character encoded at the front of `s`, assuming `head_complete(s)`.
pub open spec fn head_char(s: Seq<u8>) -> char
    recommends
        head_complete(s),
{
    decode_first_codepoint(s) as char
}

/// All units that a decoder quiescing on the byte stream `s` emits: each
/// complete head becomes one character, each byte that can neither begin nor
/// continue a valid sequence becomes one invalid-byte unit, and an incomplete
/// trailing sequence emits nothing.
pub open spec fn decode_all(s: Seq<u8>) -> Seq<GetChars>
    decreases s.len(),
{
    if s.len() == 0 {
        Seq::empty()
    } else if head_complete(s) {
        seq![GetChars::Char(head_char(s))] + decode_all(s.skip(utf8_seq_len(s[0])))
    } else if head_incomplete(s) {
        Seq::empty()
    } else {
        seq![GetChars::Invalid(s[0])] + decode_all(s.skip(1))
    }
}

/// The bytes that a decoder quiescing on the byte stream `s` retains as
/// pending: the incomplete trailing sequence, if any.
pub open spec fn leftover(s: Seq<u8>) -> Seq<u8>
    decreases s.len(),
{
    if s.len() == 0 {
        Seq::empty()
    } else if head_complete(s) {
        leftover(s.skip(utf8_seq_len(s[0])))
    } else if head_incomplete(s) {
        s
    } else {
        leftover(s.skip(1))
    }
}

/// The number of bytes the decoder examines at once: the pending bytes plus
/// newly arrived bytes, capped at the longest UTF-8 sequence.
pub open spec fn window_len(avail_len: int) -> int {
    if avail_len < 4 {
        avail_len
    } else {
        4
    }
}

/// One decoding step over the pending bytes and the incoming bytes: the unit
/// emitted (if any), the new pending bytes, and the incoming bytes not yet
/// consumed.
pub open spec fn next_spec(pending: Seq<u8>, incoming: Seq<u8>) -> (
    Option<GetChars>,
    Seq<u8>,
    Seq<u8>,
)
    recommends
        pending.len() <= 3,
{
    let avail = pending + incoming;
    let w = avail.take(window_len(avail.len() as int));
    let rest = incoming.skip(w.len() - pending.len());
    if avail.len() == 0 {
        (None, pending, incoming)
    } else if head_complete(w) {
        (Some(GetChars::Char(head_char(w))), w.skip(utf8_seq_len(w[0])), rest)
    } else if head_incomplete(w) {
        (None, w, rest)
    } else {
        (Some(GetChars::Invalid(w[0])), w.skip(1), rest)
    }
}

/// Relies on char::from_u32: it returns `Some` exactly for Unicode scalar
/// values (below the surrogate range, or above it and at most 0x10FFFF), and
/// the returned character has the given value.
pub assume_specification[ char::from_u32 ](v: u32) -> (r: Option<char>)
    ensures
        is_scalar(v) ==> r == Some(v as char),
        !is_scalar(v) ==> r is None,
;

/// A streaming decoder: retains the unconsumed prefix of a not-yet-resolvable
/// multi-byte character between invocations.
pub struct GetCharsIter {
    processing: Vec<u8>,
}

impl View for GetCharsIter {
    type V = Seq<u8>;

    closed spec fn view(&self) -> Seq<u8> {
        self.processing@
    }
}

fn utf8_needed(b: u8) -> (n: usize)
    ensures
        n as int == utf8_seq_len(b),
{
    if b < 0x80 {
        1
    } else if 0xC2 <= b && b <= 0xDF {
        2
    } else if 0xE0 <= b && b <= 0xEF {
        3
    } else if 0xF0 <= b && b <= 0xF4 {
        4
    } else {
        0
    }
}

fn cont_check(lead: u8, pos: usize, b: u8) -> (r: bool)
    ensures
        r == cont_in_range(lead, pos as int, b),
{
    if pos == 1 {
        let lo: u8 = if lead == 0xE0 {
            0xA0
        } else if lead == 0xF0 {
            0x90
        } else {
            0x80
        };
        let hi: u8 = if lead == 0xED {
            0x9F
        } else if lead == 0xF4 {
            0x8F
        } else {
            0xBF
        };
        lo <= b && b <= hi
    } else {
        0x80 <= b && b <= 0xBF
    }
}

fn vec_suffix(v: &Vec<u8>, from: usize) -> (r: Vec<u8>)
    requires
        from <= v@.len(),
    ensures
        r@ == v@.skip(from as int),
{
    let mut r: Vec<u8> = Vec::new();
    let mut i: usize = from;
    while i < v.len()
        invariant
            from <= i <= v@.len(),
            r@ == v@.subrange(from as int, i as int),
        decreases v@.len() - i,
    {
        r.push(v[i]);
        i = i + 1;
        proof {
            assert(r@ =~= v@.subrange(from as int, i as int));
        }
    }
    proof {
        assert(r@ =~= v@.skip(from as int));
    }
    r
}

/// A complete head satisfies vstd's notion of a valid first scalar, and its
/// decoded codepoint is a Unicode scalar value.
pub proof fn lemma_head_complete_valid(s: Seq<u8>)
    requires
        head_complete(s),
    ensures
        valid_first_scalar(s),
        length_of_first_scalar(s) == utf8_seq_len(s[0]),
        is_scalar(decode_first_codepoint(s)),
{
    let b0 = s[0];
    let n = utf8_seq_len(b0);
    if n == 1 {
        assert(b0 < 0x80);
        let cp = decode_first_codepoint(s);
        assert(cp == (b0 & 0x7F) as u32);
        assert(b0 < 0x80 ==> ((b0 & 0x7F) as u32) == b0 as u32) by (bit_vector);
    } else if n == 2 {
        let b1 = s[1];
        assert(cont_in_range(b0, 1, b1));
        assert(0x80 <= b1 && b1 <= 0xBF);
        let cp = decode_first_codepoint(s);
        assert(cp == (((b0 & 0x1F) as u32) << 6) | ((b1 & 0x3F) as u32));
        assert((0xC2 <= b0 && b0 <= 0xDF && 0x80 <= b1 && b1 <= 0xBF) ==> {
            let v = (((b0 & 0x1F) as u32) << 6) | ((b1 & 0x3F) as u32);
            0x80 <= v && v <= 0x7FF
        }) by (bit_vector);
    } else if n == 3 {
        let b1 = s[1];
        let b2 = s[2];
        assert(cont_in_range(b0, 1, b1));
        assert(cont_in_range(b0, 2, b2));
        assert(0x80 <= b1 && b1 <= 0xBF);
        assert(0x80 <= b2 && b2 <= 0xBF);
        let cp = decode_first_codepoint(s);
        assert(cp == (((b0 & 0x0F) as u32) << 12) | (((b1 & 0x3F) as u32) << 6) | ((b2
            & 0x3F) as u32));
        assert((0xE0 <= b0 && b0 <= 0xEF && 0x80 <= b1 && b1 <= 0xBF && 0x80 <= b2 && b2 <= 0xBF
            && (b0 == 0xE0 ==> 0xA0 <= b1) && (b0 == 0xED ==> b1 <= 0x9F)) ==> {
            let v = (((b0 & 0x0F) as u32) << 12) | (((b1 & 0x3F) as u32) << 6) | ((b2
                & 0x3F) as u32);
            0x800 <= v && v <= 0xFFFF && !(0xD800 <= v && v <= 0xDFFF)
        }) by (bit_vector);
    } else {
        assert(n == 4);
        let b1 = s[1];
        let b2 = s[2];
        let b3 = s[3];
        assert(cont_in_range(b0, 1, b1));
        assert(cont_in_range(b0, 2, b2));
        assert(cont_in_range(b0, 3, b3));
        assert(0x80 <= b1 && b1 <= 0xBF);
        assert(0x80 <= b2 && b2 <= 0xBF);
        assert(0x80 <= b3 && b3 <= 0xBF);
        let cp = decode_first_codepoint(s);
        assert(cp == (((b0 & 0x07) as u32) << 18) | (((b1 & 0x3F) as u32) << 12) | (((b2
            & 0x3F) as u32) << 6) | ((b3 & 0x3F) as u32));
        assert((0xF0 <= b0 && b0 <= 0xF4 && 0x80 <= b1 && b1 <= 0xBF && 0x80 <= b2 && b2 <= 0xBF
            && 0x80 <= b3 && b3 <= 0xBF && (b0 == 0xF0 ==> 0x90 <= b1) && (b0 == 0xF4 ==> b1
            <= 0x8F)) ==> {
            let v = (((b0 & 0x07) as u32) << 18) | (((b1 & 0x3F) as u32) << 12) | (((b2
                & 0x3F) as u32) << 6) | ((b3 & 0x3F) as u32);
            0x10000 <= v && v <= 0x10FFFF
        }) by (bit_vector);
    }
}

/// Appending bytes to a stream does not change how its head is classified,
/// except that an incomplete head may become decidable: a complete head stays
/// complete with the same character, and a head with a byte that can neither
/// begin nor continue a sequence stays invalid.
pub proof fn lemma_head_extend(s: Seq<u8>, t: Seq<u8>)
    requires
        s.len() > 0,
    ensures
        head_complete(s) ==> head_complete(s + t) && utf8_seq_len((s + t)[0]) == utf8_seq_len(
            s[0],
        ) && head_char(s + t) == head_char(s),
        !head_complete(s) && !head_incomplete(s) ==> !head_complete(s + t) && !head_incomplete(
            s + t,
        ),
{
    let st = s + t;
    assert(st[0] == s[0]);
    let b0 = s[0];
    let n = utf8_seq_len(b0);
    assert(forall|j: int| 0 <= j < s.len() ==> #[trigger] st[j] == s[j]);
    if head_complete(s) {
        assert(conts_ok_upto(st, n)) by {
            assert(forall|j: int| 1 <= j < n ==> cont_in_range(st[0], j, #[trigger] st[j]));
        }
        assert(head_complete(st));
        assert(decode_first_codepoint(st) == decode_first_codepoint(s));
    } else if !head_incomplete(s) {
        if n == 0 {
            assert(!head_complete(st) && !head_incomplete(st));
        } else if s.len() >= n {
            assert(!conts_ok_upto(s, n));
            let j = choose|j: int| 1 <= j < n && !cont_in_range(s[0], j, s[j]);
            assert(1 <= j < n && !cont_in_range(s[0], j, s[j]));
            assert(st[j] == s[j]);
            assert(!head_complete(st));
            assert(!head_incomplete(st));
        } else {
            assert(!conts_ok_upto(s, s.len() as int));
            let j = choose|j: int| 1 <= j < s.len() && !cont_in_range(s[0], j, s[j]);
            assert(1 <= j < s.len() && !cont_in_range(s[0], j, s[j]));
            assert(st[j] == s[j]);
            assert(!head_complete(st));
            assert(!head_incomplete(st));
        }
    }
}

/// One step of the decoder, seen through `decode_all` and `leftover`: when a
/// unit comes out it is the first unit of the remaining stream and at least
/// one byte is consumed; when none comes out, the stream holds no further
/// unit, all incoming bytes have moved into the pending state, and they are
/// exactly what `leftover` retains.
pub proof fn lemma_next_step(pending: Seq<u8>, incoming: Seq<u8>)
    requires
        pending.len() <= 3,
    ensures
        ({
            let (r, p2, i2) = next_spec(pending, incoming);
            let avail = pending + incoming;
            match r {
                Some(u) => {
                    &&& decode_all(avail) == seq![u] + decode_all(p2 + i2)
                    &&& leftover(avail) == leftover(p2 + i2)
                    &&& (p2 + i2).len() < avail.len()
                },
                None => {
                    &&& p2 == avail
                    &&& i2.len() == 0
                    &&& decode_all(avail) == Seq::<GetChars>::empty()
                    &&& leftover(avail) == avail
                },
            }
        }),
{
    let avail = pending + incoming;
    let wl = window_len(avail.len() as int);
    let w = avail.take(wl);
    let rest = incoming.skip(w.len() - pending.len());
    if avail.len() == 0 {
        assert(pending =~= avail);
        assert(incoming.len() == 0);
    } else {
        assert(w.len() == wl);
        assert(w + avail.skip(wl) =~= avail);
        assert(rest =~= avail.skip(wl));
        lemma_head_extend(w, avail.skip(wl));
        if head_complete(w) {
            let n = utf8_seq_len(w[0]);
            assert(head_complete(avail));
            assert(w[0] == avail[0]);
            assert(head_char(avail) == head_char(w));
            assert(utf8_seq_len(avail[0]) == n);
            assert(w.skip(n) + rest =~= avail.skip(n));
            assert(decode_all(avail) == seq![GetChars::Char(head_char(avail))] + decode_all(
                avail.skip(n),
            ));
            assert(leftover(avail) == leftover(avail.skip(n)));
            assert(avail.skip(n).len() < avail.len());
        } else if head_incomplete(w) {
            assert(utf8_seq_len(w[0]) <= 4);
            assert(w.len() < utf8_seq_len(w[0]));
            assert(wl == avail.len());
            assert(w =~= avail);
            assert(rest.len() == 0);
            assert(decode_all(avail) == Seq::<GetChars>::empty());
            assert(leftover(avail) == avail);
        } else {
            assert(!head_complete(avail) && !head_incomplete(avail));
            assert(w[0] == avail[0]);
            assert(w.skip(1) + rest =~= avail.skip(1));
            assert(decode_all(avail) == seq![GetChars::Invalid(avail[0])] + decode_all(
                avail.skip(1),
            ));
            assert(leftover(avail) == leftover(avail.skip(1)));
        }
    }
}

/// What the decoder retains is always pure pending state: it resolves to no
/// unit on its own, and retaining it again changes nothing.
pub proof fn lemma_leftover_pending(s: Seq<u8>)
    ensures
        decode_all(leftover(s)) == Seq::<GetChars>::empty(),
        leftover(leftover(s)) == leftover(s),
    decreases s.len(),
{
    if s.len() == 0 {
    } else if head_complete(s) {
        lemma_leftover_pending(s.skip(utf8_seq_len(s[0])));
    } else if head_incomplete(s) {
    } else {
        lemma_leftover_pending(s.skip(1));
    }
}

/// Splitting a byte stream in two arbitrary chunks loses and duplicates
/// nothing: the units of the whole stream are the units of the first chunk
/// followed by the units of its retained tail joined with the second chunk,
/// and the final pending bytes agree as well.
pub proof fn lemma_chunk_boundary(a: Seq<u8>, b: Seq<u8>)
    ensures
        decode_all(a + b) == decode_all(a) + decode_all(leftover(a) + b),
        leftover(a + b) == leftover(leftover(a) + b),
    decreases a.len(),
{
    if a.len() == 0 {
        assert(a + b =~= b);
        assert(leftover(a) + b =~= b);
        assert(decode_all(a) + decode_all(b) =~= decode_all(b));
    } else {
        lemma_head_extend(a, b);
        if head_complete(a) {
            let n = utf8_seq_len(a[0]);
            assert((a + b)[0] == a[0]);
            assert((a + b).skip(n) =~= a.skip(n) + b);
            lemma_chunk_boundary(a.skip(n), b);
            assert(decode_all(a + b) =~= decode_all(a) + decode_all(leftover(a) + b));
        } else if head_incomplete(a) {
            assert(leftover(a) == a);
            assert(decode_all(a) + decode_all(a + b) =~= decode_all(a + b));
        } else {
            assert((a + b)[0] == a[0]);
            assert((a + b).skip(1) =~= a.skip(1) + b);
            lemma_chunk_boundary(a.skip(1), b);
            assert(decode_all(a + b) =~= decode_all(a) + decode_all(leftover(a) + b));
        }
    }
}

/// The units and the final pending bytes after feeding `chunks` one by one to
/// a decoder whose pending state starts as `pending`.
pub open spec fn feed_all(pending: Seq<u8>, chunks: Seq<Seq<u8>>) -> (Seq<GetChars>, Seq<u8>)
    decreases chunks.len(),
{
    if chunks.len() == 0 {
        (Seq::empty(), pending)
    } else {
        let first_units = decode_all(pending + chunks[0]);
        let first_pending = leftover(pending + chunks[0]);
        let (rest_units, last_pending) = feed_all(first_pending, chunks.skip(1));
        (first_units + rest_units, last_pending)
    }
}

proof fn lemma_feed_all(pending: Seq<u8>, chunks: Seq<Seq<u8>>)
    requires
        decode_all(pending) == Seq::<GetChars>::empty(),
        leftover(pending) == pending,
    ensures
        feed_all(pending, chunks).0 == decode_all(pending + chunks.flatten()),
        feed_all(pending, chunks).1 == leftover(pending + chunks.flatten()),
    decreases chunks.len(),
{
    if chunks.len() == 0 {
        assert(chunks.flatten() =~= Seq::<u8>::empty());
        assert(pending + chunks.flatten() =~= pending);
        assert(feed_all(pending, chunks).0 =~= decode_all(pending));
    } else {
        let c0 = chunks[0];
        let rest = chunks.skip(1);
        assert(chunks.drop_first() =~= rest);
        assert(chunks.flatten() == c0 + rest.flatten());
        let p1 = leftover(pending + c0);
        lemma_leftover_pending(pending + c0);
        lemma_feed_all(p1, rest);
        lemma_chunk_boundary(pending + c0, rest.flatten());
        assert((pending + c0) + rest.flatten() =~= pending + chunks.flatten());
        assert(feed_all(pending, chunks).0 =~= decode_all(pending + chunks.flatten()));
    }
}

/// Chunking invariance: for any byte stream, decoding it chunk by chunk from
/// a fresh decoder emits the same ordered units as decoding it in one piece,
/// however the stream is partitioned, and the final pending bytes agree.
pub proof fn lemma_chunking_invariance(chunks: Seq<Seq<u8>>)
    ensures
        feed_all(Seq::empty(), chunks).0 == decode_all(chunks.flatten()),
        feed_all(Seq::empty(), chunks).1 == leftover(chunks.flatten()),
{
    lemma_feed_all(Seq::empty(), chunks);
    assert(Seq::empty() + chunks.flatten() =~= chunks.flatten());
}

/// vstd's notion of a valid first scalar coincides with a complete head.
pub proof fn lemma_valid_first_complete(s: Seq<u8>)
    requires
        valid_first_scalar(s),
    ensures
        head_complete(s),
        utf8_seq_len(s[0]) == length_of_first_scalar(s),
{
    let b0 = s[0];
    let cp = decode_first_codepoint(s);
    if vstd::utf8::is_leading_byte_width_1(b0) {
        assert(utf8_seq_len(b0) == 1);
    } else if vstd::utf8::is_leading_byte_width_2(b0) {
        let b1 = s[1];
        assert(cp == (((b0 & 0x1F) as u32) << 6) | ((b1 & 0x3F) as u32));
        assert((0xC0 <= b0 && b0 <= 0xDF && 0x80 <= b1 && b1 <= 0xBF && 0x80 <= ((((b0
            & 0x1F) as u32) << 6) | ((b1 & 0x3F) as u32))) ==> 0xC2 <= b0) by (bit_vector);
        assert(utf8_seq_len(b0) == 2);
        assert(cont_in_range(b0, 1, b1));
    } else if vstd::utf8::is_leading_byte_width_3(b0) {
        let b1 = s[1];
        let b2 = s[2];
        assert(cp == (((b0 & 0x0F) as u32) << 12) | (((b1 & 0x3F) as u32) << 6) | ((b2
            & 0x3F) as u32));
        assert((0xE0 <= b0 && b0 <= 0xEF && 0x80 <= b1 && b1 <= 0xBF && 0x800 <= ((((b0
            & 0x0F) as u32) << 12) | (((b1 & 0x3F) as u32) << 6) | ((b2 & 0x3F) as u32)) && !(0xD800
            <= ((((b0 & 0x0F) as u32) << 12) | (((b1 & 0x3F) as u32) << 6) | ((b2
            & 0x3F) as u32)) && ((((b0 & 0x0F) as u32) << 12) | (((b1 & 0x3F) as u32) << 6) | ((b2
            & 0x3F) as u32)) <= 0xDFFF)) ==> ((b0 == 0xE0 ==> 0xA0 <= b1) && (b0 == 0xED ==> b1
            <= 0x9F))) by (bit_vector);
        assert(utf8_seq_len(b0) == 3);
        assert(cont_in_range(b0, 1, b1));
        assert(cont_in_range(b0, 2, b2));
    } else {
        let b1 = s[1];
        let b2 = s[2];
        let b3 = s[3];
        assert(cp == (((b0 & 0x07) as u32) << 18) | (((b1 & 0x3F) as u32) << 12) | (((b2
            & 0x3F) as u32) << 6) | ((b3 & 0x3F) as u32));
        assert((0xF0 <= b0 && b0 <= 0xF7 && 0x80 <= b1 && b1 <= 0xBF && 0x10000 <= ((((b0
            & 0x07) as u32) << 18) | (((b1 & 0x3F) as u32) << 12) | (((b2 & 0x3F) as u32) << 6) | (
        (b3 & 0x3F) as u32)) && ((((b0 & 0x07) as u32) << 18) | (((b1 & 0x3F) as u32) << 12) | (((
        b2 & 0x3F) as u32) << 6) | ((b3 & 0x3F) as u32)) <= 0x10FFFF) ==> (b0 <= 0xF4 && (b0
            == 0xF0 ==> 0x90 <= b1) && (b0 == 0xF4 ==> b1 <= 0x8F))) by (bit_vector);
        assert(utf8_seq_len(b0) == 4);
        assert(cont_in_range(b0, 1, b1));
        assert(cont_in_range(b0, 2, b2));
        assert(cont_in_range(b0, 3, b3));
    }
}

/// The given characters, each wrapped as a decoded character unit.
pub open spec fn chars_as_units(cs: Seq<char>) -> Seq<GetChars>
    decreases cs.len(),
{
    if cs.len() == 0 {
        Seq::empty()
    } else {
        seq![GetChars::Char(cs[0])] + chars_as_units(cs.skip(1))
    }
}

/// Split-boundary correctness: a strict prefix of one character's encoding
/// yields no unit and is retained whole as pending bytes; joined with the
/// rest of the encoding it decodes to exactly that one character, emitted
/// only once both parts have arrived.
pub proof fn lemma_split_boundary(c: char, i: int)
    requires
        0 < i < vstd::utf8::encode_scalar(c as u32).len(),
    ensures
        decode_all(vstd::utf8::encode_scalar(c as u32).take(i)) == Seq::<GetChars>::empty(),
        leftover(vstd::utf8::encode_scalar(c as u32).take(i)) == vstd::utf8::encode_scalar(
            c as u32,
        ).take(i),
        decode_all(
            leftover(vstd::utf8::encode_scalar(c as u32).take(i)) + vstd::utf8::encode_scalar(
                c as u32,
            ).skip(i),
        ) == seq![GetChars::Char(c)],
        leftover(
            leftover(vstd::utf8::encode_scalar(c as u32).take(i)) + vstd::utf8::encode_scalar(
                c as u32,
            ).skip(i),
        ) == Seq::<u8>::empty(),
{
    vstd::utf8::char_is_scalar(c);
    let enc = vstd::utf8::encode_scalar(c as u32);
    vstd::utf8::encode_utf8_first_scalar(seq![c]);
    assert(vstd::utf8::encode_utf8(seq![c]) == vstd::utf8::encode_scalar(seq![c][0] as u32)
        + vstd::utf8::encode_utf8(seq![c].drop_first()));
    assert(seq![c].drop_first() =~= Seq::<char>::empty());
    assert(vstd::utf8::encode_utf8(Seq::<char>::empty()) == Seq::<u8>::empty());
    assert(vstd::utf8::encode_utf8(seq![c]) =~= enc);
    assert(valid_first_scalar(enc));
    lemma_valid_first_complete(enc);
    let n = utf8_seq_len(enc[0]);
    assert(n == enc.len());
    let pre = enc.take(i);
    assert(pre[0] == enc[0]);
    assert(conts_ok_upto(enc, n));
    assert forall|j: int| 1 <= j < i implies cont_in_range(pre[0], j, #[trigger] pre[j]) by {
        assert(pre[j] == enc[j]);
        assert(cont_in_range(enc[0], j, enc[j]));
    }
    assert(head_incomplete(pre));
    assert(decode_all(pre) == Seq::<GetChars>::empty());
    assert(leftover(pre) == pre);
    assert(pre + enc.skip(i) =~= enc);
    assert(decode_all(enc) == seq![GetChars::Char(head_char(enc))] + decode_all(enc.skip(n)));
    assert(enc.skip(n) =~= Seq::<u8>::empty());
    assert(decode_all(Seq::<u8>::empty()) == Seq::<GetChars>::empty());
    assert(head_char(enc) == c) by {
        assert(vstd::utf8::decode_first_scalar(enc) == c as u32);
        vstd::utf8::char_u32_cast(c, (c as u32));
    }
    assert(decode_all(enc) =~= seq![GetChars::Char(c)]);
    assert(leftover(enc) == leftover(enc.skip(n)));
    assert(leftover(Seq::<u8>::empty()) == Seq::<u8>::empty());
}

/// On a valid UTF-8 byte stream the decoder emits exactly the characters the
/// stream encodes, in order, and retains nothing.
pub proof fn lemma_decode_valid_utf8(bytes: Seq<u8>)
    requires
        vstd::utf8::valid_utf8(bytes),
    ensures
        decode_all(bytes) == chars_as_units(vstd::utf8::decode_utf8(bytes)),
        leftover(bytes) == Seq::<u8>::empty(),
    decreases bytes.len(),
{
    if bytes.len() == 0 {
        assert(vstd::utf8::decode_utf8(bytes) == Seq::<char>::empty());
        assert(decode_all(bytes) =~= chars_as_units(vstd::utf8::decode_utf8(bytes)));
    } else {
        lemma_valid_first_complete(bytes);
        let n = utf8_seq_len(bytes[0]);
        assert(bytes.skip(n) =~= vstd::utf8::pop_first_scalar(bytes));
        assert(vstd::utf8::valid_utf8(vstd::utf8::pop_first_scalar(bytes)));
        lemma_decode_valid_utf8(bytes.skip(n));
        assert(vstd::utf8::decode_utf8(bytes) == seq![
            vstd::utf8::decode_first_scalar(bytes) as char,
        ] + vstd::utf8::decode_utf8(vstd::utf8::pop_first_scalar(bytes)));
        let cs = vstd::utf8::decode_utf8(bytes);
        let rest = vstd::utf8::decode_utf8(bytes.skip(n));
        assert(cs == seq![vstd::utf8::decode_first_scalar(bytes) as char] + rest);
        assert(decode_all(bytes) == seq![GetChars::Char(head_char(bytes))] + decode_all(
            bytes.skip(n),
        ));
        assert(cs[0] == vstd::utf8::decode_first_scalar(bytes) as char);
        assert(cs.len() > 0);
        assert(chars_as_units(cs) == seq![GetChars::Char(cs[0])] + chars_as_units(cs.skip(1)));
        assert(cs.skip(1) =~= rest);
        assert(GetChars::Char(cs[0]) == GetChars::Char(head_char(bytes)));
        assert(decode_all(bytes) == chars_as_units(cs));
    }
}

impl GetCharsIter {
    #[verifier::type_invariant]
    spec fn wf(self) -> bool {
        self.processing.len() <= 3
    }

    /// Creates a decoder with no pending bytes.
    pub fn new() -> (r: GetCharsIter)
        ensures
            r@ == Seq::<u8>::empty(),
    {
        let r = GetCharsIter { processing: Vec::new() };
        proof {
            assert(r@ =~= Seq::<u8>::empty());
        }
        r
    }

    /// The bytes retained from previous invocations, untouched and still
    /// available: the unconsumed prefix of a not-yet-resolvable sequence.
    pub fn pending(&self) -> (r: Vec<u8>)
        ensures
            r@ == self@,
    {
        let mut r: Vec<u8> = Vec::new();
        let mut i: usize = 0;
        while i < self.processing.len()
            invariant
                i <= self.processing@.len(),
                r@ == self.processing@.take(i as int),
            decreases self.processing@.len() - i,
        {
            r.push(self.processing[i]);
            i = i + 1;
            proof {
                assert(r@ =~= self.processing@.take(i as int));
            }
        }
        proof {
            assert(r@ =~= self@);
        }
        r
    }

    /// One decoding step: consumes at most enough bytes from `chunk` to fill
    /// the four-byte examination window and returns the next unit, or `None`
    /// when the remaining bytes are an incomplete (or empty) sequence, which
    /// stays pending for the next invocation.
    pub fn next(&mut self, chunk: &mut ByteChunk) -> (r: Option<GetChars>)
        ensures
            ({
                let (ru, p2, c2) = next_spec(old(self)@, old(chunk)@);
                r == ru && final(self)@ == p2 && final(chunk)@ == c2
            }),
    {
        proof {
            use_type_invariant(&*self);
        }
        let ghost pending0 = self@;
        let ghost incoming0 = chunk@;
        let ghost avail = pending0 + incoming0;

        // Fill the examination window: pending bytes first, then up to four
        // bytes in all from the chunk.
        let mut w: Vec<u8> = Vec::new();
        let mut i: usize = 0;
        while i < self.processing.len()
            invariant
                i <= self.processing@.len(),
                self@ == pending0,
                chunk@ == incoming0,
                w@ == pending0.take(i as int),
            decreases self.processing@.len() - i,
        {
            w.push(self.processing[i]);
            i = i + 1;
            proof {
                assert(w@ =~= pending0.take(i as int));
            }
        }
        proof {
            assert(w@ =~= pending0);
        }
        while w.len() < 4 && chunk.has_remaining()
            invariant
                avail == pending0 + incoming0,
                pending0.len() <= w@.len() <= 4,
                w@.len() - pending0.len() <= incoming0.len(),
                self@ == pending0,
                w@ == avail.take(w@.len() as int),
                chunk@ == incoming0.skip(w@.len() - pending0.len()),
            decreases 4 - w@.len(),
        {
            let ghost k = w@.len() as int;
            proof {
                assert(0 <= k - pending0.len());
                assert(chunk@.len() > 0);
                assert(incoming0.skip(k - pending0.len()).len() == incoming0.len() - (k
                    - pending0.len()));
                assert(k - pending0.len() < incoming0.len());
                assert((pending0 + incoming0).len() == pending0.len() + incoming0.len());
                assert(k < avail.len());
            }
            let b = chunk.get_u8();
            w.push(b);
            proof {
                assert(b == incoming0.skip(k - pending0.len())[0]);
                assert(b == incoming0[k - pending0.len()]);
                assert((pending0 + incoming0)[k] == incoming0[k - pending0.len()]);
                assert(b == avail[k]);
                assert(w@ =~= avail.take(k + 1));
                assert(chunk@ =~= incoming0.skip(w@.len() - pending0.len()));
            }
        }
        proof {
            assert(w@.len() == window_len(avail.len() as int));
        }
        let ghost wspec = avail.take(window_len(avail.len() as int));
        proof {
            assert(w@ == wspec);
        }

        if w.len() == 0 {
            return None;
        }

        let b0 = w[0];
        let n = utf8_needed(b0);
        if n == 0 {
            self.processing = vec_suffix(&w, 1);
            return Some(GetChars::Invalid(b0));
        }

        let upto: usize = if n < w.len() {
            n
        } else {
            w.len()
        };
        let mut ok = true;
        let mut j: usize = 1;
        while j < upto
            invariant
                1 <= j <= upto,
                upto <= w@.len(),
                ok == conts_ok_upto(w@, j as int),
                b0 == w@[0],
            decreases upto - j,
        {
            if !cont_check(b0, j, w[j]) {
                ok = false;
            }
            j = j + 1;
        }
        proof {
            assert(ok == conts_ok_upto(w@, upto as int));
        }

        if !ok {
            self.processing = vec_suffix(&w, 1);
            Some(GetChars::Invalid(b0))
        } else if w.len() < n {
            proof {
                assert(head_incomplete(w@));
            }
            self.processing = w;
            None
        } else {
            let v: u32 = if n == 1 {
                (b0 & 0x7F) as u32
            } else if n == 2 {
                (((b0 & 0x1F) as u32) << 6) | ((w[1] & 0x3F) as u32)
            } else if n == 3 {
                (((b0 & 0x0F) as u32) << 12) | (((w[1] & 0x3F) as u32) << 6) | ((w[2]
                    & 0x3F) as u32)
            } else {
                (((b0 & 0x07) as u32) << 18) | (((w[1] & 0x3F) as u32) << 12) | (((w[2]
                    & 0x3F) as u32) << 6) | ((w[3] & 0x3F) as u32)
            };
            proof {
                assert(head_complete(w@));
                lemma_head_complete_valid(w@);
                assert(v == decode_first_codepoint(w@));
            }
            let c = char::from_u32(v).unwrap();
            self.processing = vec_suffix(&w, n);
            Some(GetChars::Char(c))
        }
    }

    /// Decodes every byte of `chunk`, together with the pending bytes: the
    /// returned units are everything the combined stream resolves to, and the
    /// pending state afterwards holds exactly its incomplete trailing
    /// sequence.
    pub fn decode_chunk(&mut self, chunk: &mut ByteChunk) -> (units: Vec<GetChars>)
        ensures
            units@ == decode_all(old(self)@ + old(chunk)@),
            final(self)@ == leftover(old(self)@ + old(chunk)@),
            final(chunk)@.len() == 0,
    {
        proof {
            use_type_invariant(&*self);
        }
        let ghost avail0 = self@ + chunk@;
        let mut units: Vec<GetChars> = Vec::new();
        let mut done = false;
        while !done
            invariant
                avail0 == old(self)@ + old(chunk)@,
                self@.len() <= 3,
                decode_all(avail0) == units@ + decode_all(self@ + chunk@),
                leftover(avail0) == leftover(self@ + chunk@),
                done ==> chunk@.len() == 0 && decode_all(self@ + chunk@)
                    == Seq::<GetChars>::empty() && leftover(self@ + chunk@) == self@ + chunk@,
            decreases (self@ + chunk@).len() + (if done {
                0int
            } else {
                1int
            }),
        {
            let ghost p = self@;
            let ghost inc = chunk@;
            let r = self.next(chunk);
            proof {
                lemma_next_step(p, inc);
                use_type_invariant(&*self);
            }
            match r {
                Some(u) => {
                    units.push(u);
                    proof {
                        assert(units@ + decode_all(self@ + chunk@) =~= decode_all(avail0));
                    }
                },
                None => {
                    done = true;
                },
            }
        }
        proof {
            assert(units@ =~= decode_all(avail0));
            assert(self@ + chunk@ =~= self@);
            assert(leftover(self@ + chunk@) == self@ + chunk@);
        }
        units
    }
}

} // verus!
