use serialcat::chunk::ByteChunk;
use serialcat::decode::{GetChars, GetCharsIter};

#[test]
fn get_chars() {
    let mut buffer = ByteChunk::new();
    buffer.put_slice(&b"abcdef"[..]);
    let mut iter = GetCharsIter::new();
    assert_eq!(iter.next(&mut buffer), Some(GetChars::Char('a')));
    assert_eq!(iter.next(&mut buffer), Some(GetChars::Char('b')));
    assert_eq!(iter.next(&mut buffer), Some(GetChars::Char('c')));
    assert_eq!(iter.next(&mut buffer), Some(GetChars::Char('d')));
    assert_eq!(iter.next(&mut buffer), Some(GetChars::Char('e')));
    assert_eq!(iter.next(&mut buffer), Some(GetChars::Char('f')));
    assert_eq!(iter.next(&mut buffer), None);
    assert!(!buffer.has_remaining());
    assert!(iter.pending().is_empty());
}

#[test]
fn get_chars_multibyte() {
    let mut buffer = ByteChunk::new();
    buffer.put_slice("AΓあ🀄".as_bytes());
    let mut iter = GetCharsIter::new();
    assert_eq!(iter.next(&mut buffer), Some(GetChars::Char('A'))); // 1 byte
    assert_eq!(iter.next(&mut buffer), Some(GetChars::Char('Γ'))); // 2 byte
    assert_eq!(iter.next(&mut buffer), Some(GetChars::Char('あ'))); // 3 byte
    assert_eq!(iter.next(&mut buffer), Some(GetChars::Char('🀄'))); // 4 byte
    assert_eq!(iter.next(&mut buffer), None);
    assert!(!buffer.has_remaining());
}

#[test]
fn get_chars_invalid() {
    let mut buffer = ByteChunk::new();
    buffer.put_slice(&b"a\x81\xc2\xe3\x84\xf5\x86\x87b"[..]);
    let mut iter = GetCharsIter::new();
    assert_eq!(iter.next(&mut buffer), Some(GetChars::Char('a')));
    assert_eq!(iter.next(&mut buffer), Some(GetChars::Invalid(0x81))); // non-first character
    assert_eq!(iter.next(&mut buffer), Some(GetChars::Invalid(0xc2))); // 2 byte character without second byte
    assert_eq!(iter.next(&mut buffer), Some(GetChars::Invalid(0xe3))); // 3 byte character without last byte
    assert_eq!(iter.next(&mut buffer), Some(GetChars::Invalid(0x84))); //     second byte
    assert_eq!(iter.next(&mut buffer), Some(GetChars::Invalid(0xf5))); // 4 byte character without last byte
    assert_eq!(iter.next(&mut buffer), Some(GetChars::Invalid(0x86))); //     second byte
    assert_eq!(iter.next(&mut buffer), Some(GetChars::Invalid(0x87))); //     third byte
    assert_eq!(iter.next(&mut buffer), Some(GetChars::Char('b')));
    assert_eq!(iter.next(&mut buffer), None);
    assert!(!buffer.has_remaining());
}

#[test]
fn get_chars_incomplete() {
    // 2 byte character `Γ` without last byte
    let mut buffer = ByteChunk::new();
    buffer.put_slice(&"aΓ".as_bytes()[..2]);
    let mut iter = GetCharsIter::new();
    assert_eq!(iter.next(&mut buffer), Some(GetChars::Char('a')));
    assert_eq!(iter.next(&mut buffer), None);
    let pending = iter.pending();
    assert_eq!(pending.len(), 1);
    assert_eq!(pending[0], "Γ".as_bytes()[0]);
    assert!(!buffer.has_remaining());

    // 3 byte character `あ` without last byte
    let mut buffer = ByteChunk::new();
    buffer.put_slice(&"aあ".as_bytes()[..3]);
    let mut iter = GetCharsIter::new();
    assert_eq!(iter.next(&mut buffer), Some(GetChars::Char('a')));
    assert_eq!(iter.next(&mut buffer), None);
    let pending = iter.pending();
    assert_eq!(pending.len(), 2);
    assert_eq!(pending[0], "あ".as_bytes()[0]);
    assert_eq!(pending[1], "あ".as_bytes()[1]);
    assert!(!buffer.has_remaining());

    // 4 byte character `🀄` without last byte
    let mut buffer = ByteChunk::new();
    buffer.put_slice(&"a🀄".as_bytes()[..4]);
    let mut iter = GetCharsIter::new();
    assert_eq!(iter.next(&mut buffer), Some(GetChars::Char('a')));
    assert_eq!(iter.next(&mut buffer), None);
    let pending = iter.pending();
    assert_eq!(pending.len(), 3);
    assert_eq!(pending[0], "🀄".as_bytes()[0]);
    assert_eq!(pending[1], "🀄".as_bytes()[1]);
    assert_eq!(pending[2], "🀄".as_bytes()[2]);
    assert!(!buffer.has_remaining());
}

#[test]
fn get_chars_bytes_split() {
    // A multibyte character may arrive after earlier bytes were consumed from
    // the front of the buffer.

    let mut buffer = ByteChunk::new();
    buffer.put_slice(&b"abcde"[..]);
    buffer.advance(3);
    buffer.put_slice("Γ".as_bytes());
    let mut iter = GetCharsIter::new();
    assert_eq!(iter.next(&mut buffer), Some(GetChars::Char('d')));
    assert_eq!(iter.next(&mut buffer), Some(GetChars::Char('e')));
    assert_eq!(iter.next(&mut buffer), Some(GetChars::Char('Γ')));
    assert_eq!(iter.next(&mut buffer), None);
    assert!(!buffer.has_remaining());
}

#[test]
fn split_multibyte_across_chunks() {
    // The two bytes of `Γ` delivered as two single-byte chunks: nothing is
    // emitted until the second byte arrives, and the partial byte stays
    // queryable in the meantime.
    let gamma = "Γ".as_bytes();
    let mut iter = GetCharsIter::new();

    let mut first = ByteChunk::new();
    first.put_slice(&gamma[..1]);
    assert_eq!(iter.next(&mut first), None);
    assert!(!first.has_remaining());
    assert_eq!(iter.pending(), vec![gamma[0]]);

    let mut second = ByteChunk::new();
    second.put_slice(&gamma[1..]);
    assert_eq!(iter.next(&mut second), Some(GetChars::Char('Γ')));
    assert_eq!(iter.next(&mut second), None);
    assert!(iter.pending().is_empty());
}

#[test]
fn chunking_is_invariant() {
    // Decoding byte by byte gives the same units as decoding in one piece.
    let bytes = b"a\x81\xc2a\xe3\x84\xf5b\xce\x93\xf0\x9f\x80\x84";

    let mut whole = ByteChunk::new();
    whole.put_slice(&bytes[..]);
    let mut iter = GetCharsIter::new();
    let all_at_once = iter.decode_chunk(&mut whole);

    let mut one_by_one = Vec::new();
    let mut iter2 = GetCharsIter::new();
    for &b in bytes.iter() {
        let mut chunk = ByteChunk::new();
        chunk.put_slice(&[b]);
        one_by_one.extend(iter2.decode_chunk(&mut chunk));
    }

    assert_eq!(all_at_once, one_by_one);
    assert_eq!(iter.pending(), iter2.pending());
}

#[test]
fn decode_chunk_collects_units() {
    let mut buffer = ByteChunk::new();
    buffer.put_slice(&b"a\xffb"[..]);
    let mut iter = GetCharsIter::new();
    let units = iter.decode_chunk(&mut buffer);
    assert_eq!(
        units,
        vec![
            GetChars::Char('a'),
            GetChars::Invalid(0xff),
            GetChars::Char('b'),
        ]
    );
    assert!(!buffer.has_remaining());
}

#[test]
fn empty_chunk_yields_nothing() {
    let mut buffer = ByteChunk::new();
    let mut iter = GetCharsIter::new();
    assert_eq!(iter.next(&mut buffer), None);
    assert!(iter.pending().is_empty());
}

#[test]
fn overlong_and_surrogate_rejected() {
    // Overlong encoding of '/' and an encoded surrogate are invalid byte by
    // byte.
    let mut buffer = ByteChunk::new();
    buffer.put_slice(&b"\xc0\xaf\xed\xa0\x80"[..]);
    let mut iter = GetCharsIter::new();
    let units = iter.decode_chunk(&mut buffer);
    assert_eq!(
        units,
        vec![
            GetChars::Invalid(0xc0),
            GetChars::Invalid(0xaf),
            GetChars::Invalid(0xed),
            GetChars::Invalid(0xa0),
            GetChars::Invalid(0x80),
        ]
    );
}

#[test]
fn mixed_valid_invalid_incomplete() {
    // An ASCII byte, an invalid byte, a two-byte character, and a trailing
    // incomplete lead byte: the lead stays pending.
    let mut buffer = ByteChunk::new();
    buffer.put_slice(&[
        b'a', // alphabet a (1 byte character)
        0x83, // invalid (cannot appear as a first byte)
        0xce, 0x93, // Greek Gamma (2 byte character)
        0xc7, // incomplete (first byte of a 2 byte character)
    ]);
    let mut iter = GetCharsIter::new();
    assert_eq!(iter.next(&mut buffer), Some(GetChars::Char('a')));
    assert_eq!(iter.next(&mut buffer), Some(GetChars::Invalid(0x83)));
    assert_eq!(iter.next(&mut buffer), Some(GetChars::Char('Γ')));
    assert_eq!(iter.next(&mut buffer), None); // 0xc7 is kept pending
    assert_eq!(iter.pending(), vec![0xc7]);
}
