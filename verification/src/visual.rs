//! Visualizer: renders decoded units as terminal-safe bytes, tracking one
//! persistent reverse-video flag so that control characters and invalid bytes
//! stand out, with each mode transition emitting its escape sequence exactly
//! once.

use vstd::prelude::*;
use vstd::utf8::encode_scalar;

use crate::chunk::ByteChunk;
use crate::decode::{
    chars_as_units, decode_all, head_char, leftover, lemma_decode_valid_utf8,
    lemma_valid_first_complete, utf8_seq_len, GetChars, GetCharsIter,
};

verus! {

broadcast use vstd::seq_lib::group_seq_properties;

/// True when `c` is a control character (category Cc): the C0 range, DEL, or
/// the C1 range.
pub open spec fn is_control_char(c: char) -> bool {
    (c as u32) < 0x20 || (0x7F <= (c as u32) && (c as u32) < 0xA0)
}

/// True when rendering `u` requires reverse-video mode: every control
/// character other than newline and tab, and every invalid byte.
pub open spec fn needs_reverse(u: GetChars) -> bool {
    match u {
        GetChars::Char(c) => is_control_char(c) && c != '\n' && c != '\t',
        GetChars::Invalid(_) => true,
    }
}

/// The escape sequence that enters reverse-video mode.
pub open spec fn enter_reverse() -> Seq<u8> {
    seq![0x1B, 0x5B, 0x37, 0x6D]
}

/// The escape sequence that leaves reverse-video mode.
pub open spec fn exit_reverse() -> Seq<u8> {
    seq![0x1B, 0x5B, 0x6D]
}

/// The upper-case hexadecimal digit for a value below 16.
pub open spec fn hex_digit(v: u8) -> u8
    recommends
        v < 16,
{
    if v < 10 {
        (0x30 + v) as u8
    } else {
        (0x37 + v) as u8
    }
}

/// How an invalid byte is displayed: its two hexadecimal digits between
/// angle brackets.
pub open spec fn invalid_glyph(b: u8) -> Seq<u8> {
    seq![0x3C, hex_digit(b / 16), hex_digit(b % 16), 0x3E]
}

/// How a control character is displayed: a caret form for the C0 range, `^?`
/// for DEL, and a caret-bracket form for the C1 range.
pub open spec fn control_glyph(c: char) -> Seq<u8>
    recommends
        is_control_char(c),
{
    let v = c as u32;
    if v < 0x20 {
        seq![0x5E, (v + 0x40) as u8]
    } else if v == 0x7F {
        seq![0x5E, 0x3F]
    } else {
        seq![0x5E, 0x5B, 0x5B, ((v - 0x80) + 0x40) as u8]
    }
}

/// The bytes a unit itself contributes, apart from any mode transition: the
/// control or invalid-byte glyph, or the character's UTF-8 encoding.
pub open spec fn render_body(u: GetChars) -> Seq<u8> {
    match u {
        GetChars::Char(c) => if needs_reverse(u) {
            control_glyph(c)
        } else {
            encode_scalar(c as u32)
        },
        GetChars::Invalid(b) => invalid_glyph(b),
    }
}

/// Everything emitted for one unit when the reverse-video flag currently has
/// the value `reversed`: the mode-transition escape exactly when the mode
/// changes, then the unit's own bytes.
pub open spec fn render_one(u: GetChars, reversed: bool) -> Seq<u8> {
    let pre = if needs_reverse(u) && !reversed {
        enter_reverse()
    } else if !needs_reverse(u) && reversed {
        exit_reverse()
    } else {
        Seq::empty()
    };
    pre + render_body(u)
}

/// Everything emitted for a sequence of units rendered in order, starting
/// with the reverse-video flag at `reversed`.
pub open spec fn render_all(us: Seq<GetChars>, reversed: bool) -> Seq<u8>
    decreases us.len(),
{
    if us.len() == 0 {
        Seq::empty()
    } else {
        render_one(us[0], reversed) + render_all(us.skip(1), needs_reverse(us[0]))
    }
}

/// The reverse-video flag after rendering the units in order, starting from
/// `reversed`.
pub open spec fn reversed_after(us: Seq<GetChars>, reversed: bool) -> bool {
    if us.len() == 0 {
        reversed
    } else {
        needs_reverse(us.last())
    }
}

/// Rendering one more unit appends its bytes, emitted under the flag that the
/// earlier units left behind.
pub proof fn lemma_render_all_snoc(us: Seq<GetChars>, reversed: bool, i: int)
    requires
        0 <= i < us.len(),
    ensures
        render_all(us.take(i + 1), reversed) == render_all(us.take(i), reversed) + render_one(
            us[i],
            reversed_after(us.take(i), reversed),
        ),
        reversed_after(us.take(i + 1), reversed) == needs_reverse(us[i]),
    decreases i,
{
    if i == 0 {
        assert(us.take(1) =~= seq![us[0]]);
        assert(us.take(1).skip(1) =~= Seq::<GetChars>::empty());
        assert(us.take(0) =~= Seq::<GetChars>::empty());
        assert(render_all(us.take(1), reversed) =~= render_one(us[0], reversed));
        assert(render_all(us.take(0), reversed) + render_one(us[0], reversed) =~= render_one(
            us[0],
            reversed,
        ));
    } else {
        let tail = us.skip(1);
        lemma_render_all_snoc(tail, needs_reverse(us[0]), i - 1);
        assert(us.take(i + 1)[0] == us[0]);
        assert(us.take(i)[0] == us[0]);
        assert(us.take(i + 1).skip(1) =~= tail.take(i));
        assert(us.take(i).skip(1) =~= tail.take(i - 1));
        assert(tail[i - 1] == us[i]);
        assert(render_all(us.take(i + 1), reversed) == render_one(us[0], reversed) + render_all(
            tail.take(i),
            needs_reverse(us[0]),
        ));
        assert(render_all(us.take(i), reversed) == render_one(us[0], reversed) + render_all(
            tail.take(i - 1),
            needs_reverse(us[0]),
        ));
        assert(reversed_after(us.take(i), reversed) == reversed_after(
            tail.take(i - 1),
            needs_reverse(us[0]),
        )) by {
            if i == 1 {
                assert(tail.take(0).len() == 0);
                assert(us.take(1).last() == us[0]);
            } else {
                assert(us.take(i).last() == us[i - 1]);
                assert(tail.take(i - 1).last() == us[i - 1]);
            }
        }
        assert(render_all(us.take(i + 1), reversed) =~= render_all(us.take(i), reversed)
            + render_one(us[i], reversed_after(us.take(i), reversed)));
        assert(us.take(i + 1).last() == us[i]);
    }
}

/// True when the visualizer prints `c` as itself: newline, tab, or any
/// non-control character.
pub open spec fn is_displayable(c: char) -> bool {
    c == '\n' || c == '\t' || !is_control_char(c)
}

proof fn lemma_render_plain(cs: Seq<char>)
    requires
        forall|i: int| 0 <= i < cs.len() ==> is_displayable(#[trigger] cs[i]),
    ensures
        decode_all(vstd::utf8::encode_utf8(cs)).len() == cs.len(),
        render_all(decode_all(vstd::utf8::encode_utf8(cs)), false) == vstd::utf8::encode_utf8(cs),
        reversed_after(decode_all(vstd::utf8::encode_utf8(cs)), false) == false,
    decreases cs.len(),
{
    if cs.len() == 0 {
        assert(vstd::utf8::encode_utf8(cs) == Seq::<u8>::empty());
        assert(decode_all(vstd::utf8::encode_utf8(cs)) == Seq::<GetChars>::empty());
        assert(render_all(decode_all(vstd::utf8::encode_utf8(cs)), false) =~= vstd::utf8::encode_utf8(cs));
    } else {
        let enc = vstd::utf8::encode_utf8(cs);
        vstd::utf8::encode_utf8_first_scalar(cs);
        assert(vstd::utf8::valid_first_scalar(enc));
        lemma_valid_first_complete(enc);
        let n = utf8_seq_len(enc[0]);
        assert(n == vstd::utf8::length_of_first_scalar(enc));
        assert(decode_all(enc) == seq![GetChars::Char(head_char(enc))] + decode_all(enc.skip(n)));
        assert(vstd::utf8::decode_first_scalar(enc) == cs[0] as u32);
        vstd::utf8::char_u32_cast(cs[0], vstd::utf8::decode_first_scalar(enc));
        assert(head_char(enc) == cs[0]);
        assert(is_displayable(cs[0]));
        let u0 = GetChars::Char(head_char(enc));
        assert(!needs_reverse(u0));
        assert(render_one(u0, false) =~= encode_scalar(head_char(enc) as u32));
        assert(vstd::utf8::encode_utf8(cs) == encode_scalar(cs[0] as u32) + vstd::utf8::encode_utf8(
            cs.drop_first(),
        ));
        assert(cs.drop_first() =~= cs.skip(1));
        assert(n == encode_scalar(cs[0] as u32).len());
        assert(enc.skip(n) =~= vstd::utf8::encode_utf8(cs.skip(1)));
        assert(forall|i: int| 0 <= i < cs.skip(1).len() ==> is_displayable(#[trigger] cs.skip(1)[i]));
        lemma_render_plain(cs.skip(1));
        let rest_units = decode_all(vstd::utf8::encode_utf8(cs.skip(1)));
        assert(decode_all(enc.skip(n)) == rest_units);
        assert(decode_all(enc).len() == 1 + rest_units.len());
        assert(decode_all(enc)[0] == u0);
        assert(decode_all(enc).skip(1) =~= rest_units);
        assert(render_all(decode_all(enc), false) == render_one(u0, false) + render_all(
            rest_units,
            needs_reverse(u0),
        ));
        assert(render_all(decode_all(enc), false) =~= enc);
        if rest_units.len() == 0 {
            assert(decode_all(enc).last() == u0);
        } else {
            assert(decode_all(enc).last() == rest_units.last());
            assert(reversed_after(rest_units, false) == needs_reverse(rest_units.last()));
        }
        assert(reversed_after(decode_all(enc), false) == false);
    }
}

/// Round trip on valid text: decoding the UTF-8 encoding of characters that
/// the visualizer prints as themselves, then rendering the units from normal
/// mode, reproduces exactly the original bytes, emits no reverse-video
/// escape, and leaves the mode normal; the decoder retains nothing.
pub proof fn lemma_round_trip(cs: Seq<char>)
    requires
        forall|i: int| 0 <= i < cs.len() ==> is_displayable(#[trigger] cs[i]),
    ensures
        decode_all(vstd::utf8::encode_utf8(cs)) == chars_as_units(cs),
        leftover(vstd::utf8::encode_utf8(cs)) == Seq::<u8>::empty(),
        render_all(decode_all(vstd::utf8::encode_utf8(cs)), false) == vstd::utf8::encode_utf8(cs),
        reversed_after(decode_all(vstd::utf8::encode_utf8(cs)), false) == false,
{
    vstd::utf8::encode_utf8_valid_utf8(cs);
    lemma_decode_valid_utf8(vstd::utf8::encode_utf8(cs));
    vstd::utf8::encode_utf8_decode_utf8(cs);
    assert(vstd::utf8::decode_utf8(vstd::utf8::encode_utf8(cs)) == cs);
    lemma_render_plain(cs);
}

/// The visualization state: one persistent reverse-video flag, created off.
pub struct Visualizer {
    reversed: bool,
}

impl View for Visualizer {
    type V = bool;

    closed spec fn view(&self) -> bool {
        self.reversed
    }
}

fn hex_digit_of(v: u8) -> (r: u8)
    requires
        v < 16,
    ensures
        r == hex_digit(v),
{
    if v < 10 {
        0x30 + v
    } else {
        0x37 + v
    }
}

fn encode_char_bytes(c: char, out: &mut Vec<u8>)
    ensures
        final(out)@ == old(out)@ + encode_scalar(c as u32),
{
    proof {
        vstd::utf8::char_is_scalar(c);
    }
    let v = c as u32;
    if v <= 0x7F {
        assert((v & 0x7F) < 256) by (bit_vector);
        out.push((v & 0x7F) as u8);
    } else if v <= 0x7FF {
        assert(((v >> 6) & 0x1F) < 256 && (v & 0x3F) < 256) by (bit_vector);
        out.push(0xC0 | ((v >> 6) & 0x1F) as u8);
        out.push(0x80 | (v & 0x3F) as u8);
    } else if v <= 0xFFFF {
        assert(((v >> 12) & 0x0F) < 256 && ((v >> 6) & 0x3F) < 256 && (v & 0x3F) < 256)
            by (bit_vector);
        out.push(0xE0 | ((v >> 12) & 0x0F) as u8);
        out.push(0x80 | ((v >> 6) & 0x3F) as u8);
        out.push(0x80 | (v & 0x3F) as u8);
    } else {
        assert(((v >> 18) & 0x07) < 256 && ((v >> 12) & 0x3F) < 256 && ((v >> 6) & 0x3F) < 256 && (
        v & 0x3F) < 256) by (bit_vector);
        out.push(0xF0 | ((v >> 18) & 0x07) as u8);
        out.push(0x80 | ((v >> 12) & 0x3F) as u8);
        out.push(0x80 | ((v >> 6) & 0x3F) as u8);
        out.push(0x80 | (v & 0x3F) as u8);
    }
    proof {
        assert(out@ =~= old(out)@ + encode_scalar(c as u32));
    }
}

impl Visualizer {
    /// Creates a visualizer with reverse-video mode off.
    pub fn new() -> (r: Visualizer)
        ensures
            r@ == false,
    {
        Visualizer { reversed: false }
    }

    /// Renders one decoded unit, emitting a mode-transition escape exactly
    /// when the reverse-video flag flips, then the unit's own bytes.
    pub fn render(&mut self, u: GetChars) -> (out: Vec<u8>)
        ensures
            out@ == render_one(u, old(self)@),
            final(self)@ == needs_reverse(u),
    {
        let mut out: Vec<u8> = Vec::new();
        match u {
            GetChars::Char(c) => {
                let v = c as u32;
                if (v < 0x20 || (0x7F <= v && v < 0xA0)) && c != '\n' && c != '\t' {
                    if !self.reversed {
                        out.push(0x1B);
                        out.push(0x5B);
                        out.push(0x37);
                        out.push(0x6D);
                        self.reversed = true;
                    } else {
                        self.reversed = true;
                    }
                    if v < 0x20 {
                        out.push(0x5E);
                        out.push((v as u8) + 0x40);
                    } else if v == 0x7F {
                        out.push(0x5E);
                        out.push(0x3F);
                    } else {
                        out.push(0x5E);
                        out.push(0x5B);
                        out.push(0x5B);
                        out.push(((v - 0x80) as u8) + 0x40);
                    }
                    proof {
                        assert(out@ =~= render_one(u, old(self)@));
                    }
                } else {
                    if self.reversed {
                        out.push(0x1B);
                        out.push(0x5B);
                        out.push(0x6D);
                        self.reversed = false;
                    } else {
                        self.reversed = false;
                    }
                    encode_char_bytes(c, &mut out);
                    proof {
                        assert(out@ =~= render_one(u, old(self)@));
                    }
                }
            },
            GetChars::Invalid(b) => {
                if !self.reversed {
                    out.push(0x1B);
                    out.push(0x5B);
                    out.push(0x37);
                    out.push(0x6D);
                    self.reversed = true;
                } else {
                    self.reversed = true;
                }
                out.push(0x3C);
                out.push(hex_digit_of(b / 16));
                out.push(hex_digit_of(b % 16));
                out.push(0x3E);
                proof {
                    assert(out@ =~= render_one(u, old(self)@));
                }
            },
        }
        out
    }

    /// Decodes everything in `chunk` (together with the decoder's pending
    /// bytes) and renders every resulting unit in order: the output is
    /// exactly the rendering of the combined stream's units under the current
    /// flag.
    pub fn visualize(&mut self, decoder: &mut GetCharsIter, chunk: &mut ByteChunk) -> (out: Vec<
        u8,
    >)
        ensures
            out@ == render_all(decode_all(old(decoder)@ + old(chunk)@), old(self)@),
            final(self)@ == reversed_after(decode_all(old(decoder)@ + old(chunk)@), old(self)@),
            final(decoder)@ == leftover(old(decoder)@ + old(chunk)@),
            final(chunk)@.len() == 0,
    {
        let ghost r0 = self@;
        let units = decoder.decode_chunk(chunk);
        let mut out: Vec<u8> = Vec::new();
        let mut i: usize = 0;
        while i < units.len()
            invariant
                i <= units@.len(),
                out@ == render_all(units@.take(i as int), r0),
                self@ == reversed_after(units@.take(i as int), r0),
            decreases units@.len() - i,
        {
            proof {
                lemma_render_all_snoc(units@, r0, i as int);
            }
            let mut piece = self.render(units[i]);
            out.append(&mut piece);
            i = i + 1;
        }
        proof {
            assert(units@.take(units@.len() as int) =~= units@);
        }
        out
    }
}

} // verus!
