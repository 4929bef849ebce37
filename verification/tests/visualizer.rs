use serialcat::chunk::ByteChunk;
use serialcat::decode::{GetChars, GetCharsIter};
use serialcat::visual::Visualizer;

#[test]
fn reverse_video_toggles_once() {
    // 'a', control 0x01, control 0x02, 'b': exactly one enter-reverse escape
    // before the first control character and one exit-reverse before 'b'.
    let mut vis = Visualizer::new();
    let mut out = Vec::new();
    for u in [
        GetChars::Char('a'),
        GetChars::Char('\u{1}'),
        GetChars::Char('\u{2}'),
        GetChars::Char('b'),
    ] {
        out.extend(vis.render(u));
    }
    assert_eq!(
        out,
        vec![
            b'a', 0x1b, b'[', b'7', b'm', b'^', b'A', b'^', b'B', 0x1b, b'[', b'm', b'b',
        ]
    );
}

#[test]
fn round_trip_plain_text() {
    // A valid UTF-8 string of printable characters (and newline) comes out
    // unchanged, with no escape byte anywhere.
    let text = "ab\nc";
    let mut buffer = ByteChunk::new();
    buffer.put_slice(text.as_bytes());
    let mut iter = GetCharsIter::new();
    let mut vis = Visualizer::new();
    let out = vis.visualize(&mut iter, &mut buffer);
    assert_eq!(out, text.as_bytes().to_vec());
    assert!(!out.contains(&0x1b));
    assert!(iter.pending().is_empty());
}

#[test]
fn invalid_byte_rendered_as_hex() {
    let mut vis = Visualizer::new();
    let out = vis.render(GetChars::Invalid(0xab));
    assert_eq!(
        out,
        vec![0x1b, b'[', b'7', b'm', b'<', b'A', b'B', b'>']
    );
    // Already reversed: no second enter-reverse escape.
    let out = vis.render(GetChars::Invalid(0x0f));
    assert_eq!(out, vec![b'<', b'0', b'F', b'>']);
}

#[test]
fn control_glyph_forms() {
    // C0 control: caret and shifted letter.
    let mut vis = Visualizer::new();
    let out = vis.render(GetChars::Char('\t'));
    assert_eq!(out, vec![b'\t']);
    let out = vis.render(GetChars::Char('\u{1b}'));
    assert_eq!(out, vec![0x1b, b'[', b'7', b'm', b'^', b'[']);
    // DEL: caret question mark, mode already reversed.
    let out = vis.render(GetChars::Char('\u{7f}'));
    assert_eq!(out, vec![b'^', b'?']);
    // C1 control: caret, two brackets, shifted letter.
    let out = vis.render(GetChars::Char('\u{85}'));
    assert_eq!(out, vec![b'^', b'[', b'[', b'E']);
    // Back to a printable character: one exit escape, then its encoding.
    let out = vis.render(GetChars::Char('Γ'));
    let mut expected = vec![0x1b, b'[', b'm'];
    expected.extend("Γ".as_bytes());
    assert_eq!(out, expected);
}

#[test]
fn multibyte_encodings_reproduced() {
    // The visualizer re-encodes each decoded character in UTF-8: 2-, 3- and
    // 4-byte forms all come back byte for byte.
    let text = "Γあ🀄";
    let mut buffer = ByteChunk::new();
    buffer.put_slice(text.as_bytes());
    let mut iter = GetCharsIter::new();
    let mut vis = Visualizer::new();
    let out = vis.visualize(&mut iter, &mut buffer);
    assert_eq!(out, text.as_bytes().to_vec());
}

#[test]
fn visualize_mixed_stream() {
    // Valid text around an invalid byte: the invalid byte appears as a
    // reversed hex cell between unchanged characters.
    let mut buffer = ByteChunk::new();
    buffer.put_slice(&b"a\x81b"[..]);
    let mut iter = GetCharsIter::new();
    let mut vis = Visualizer::new();
    let out = vis.visualize(&mut iter, &mut buffer);
    assert_eq!(
        out,
        vec![
            b'a', 0x1b, b'[', b'7', b'm', b'<', b'8', b'1', b'>', 0x1b, b'[', b'm', b'b',
        ]
    );
}
