//! Picture dimensions read from the first bytes of a file: PNG, BMP, WebP, JPEG and TGA.
use crate::text::{ascii_lowercase, chars_of, equals_text, lowercase_ascii};
use vstd::prelude::*;

verus! {

/// A big-endian unsigned number of `width` bytes at `at`, when the bytes are there.
pub open spec fn be_at(bytes: Seq<u8>, at: int, width: int) -> Option<nat>
    decreases width,
{
    if at < 0 || width < 0 || at + width > bytes.len() {
        None
    } else if width == 0 {
        Some(0)
    } else {
        match be_at(bytes, at, width - 1) {
            Some(high) => Some(high * 256 + bytes[at + width - 1] as nat),
            None => None,
        }
    }
}

/// A little-endian unsigned number of `width` bytes at `at`, when the bytes are there.
pub open spec fn le_at(bytes: Seq<u8>, at: int, width: int) -> Option<nat>
    decreases width,
{
    if at < 0 || width < 0 || at + width > bytes.len() {
        None
    } else if width == 0 {
        Some(0)
    } else {
        match le_at(bytes, at + 1, width - 1) {
            Some(high) => Some(bytes[at] as nat + 256 * high),
            None => None,
        }
    }
}

/// Whether `bytes` begin with `prefix`.
pub open spec fn begins(bytes: Seq<u8>, prefix: Seq<u8>) -> bool {
    prefix.len() <= bytes.len() && bytes.take(prefix.len() as int) == prefix
}

/// `i32::unsigned_abs` of the 32 bits of `value` read as a signed number.
pub open spec fn magnitude(value: nat) -> nat {
    if value < 0x8000_0000 {
        value
    } else {
        (0x1_0000_0000 - value) as nat
    }
}

/// The start-of-frame markers, whose segment holds the picture's size.
pub open spec fn is_frame_marker(marker: u8) -> bool {
    (0xc0 <= marker <= 0xc3) || (0xc5 <= marker <= 0xc7) || (0xc9 <= marker <= 0xcb) || (0xcd
        <= marker <= 0xcf)
}

/// The first index at or after `at` that does not hold a fill byte.
pub open spec fn skip_fill(bytes: Seq<u8>, at: int) -> int
    decreases bytes.len() - at,
{
    if 0 <= at < bytes.len() && bytes[at] == 0xff {
        skip_fill(bytes, at + 1)
    } else {
        at
    }
}

/// Walks the JPEG segments from `at` to the first frame header, as the reader does.
pub open spec fn jpeg_scan(bytes: Seq<u8>, at: int) -> Option<(nat, nat)>
    decreases bytes.len() - at,
{
    if at < 0 || at + 1 >= bytes.len() || bytes[at] != 0xff {
        None
    } else {
        let marker_at = skip_fill(bytes, at);
        if marker_at >= bytes.len() {
            None
        } else {
            let marker = bytes[marker_at];
            let next = marker_at + 1;
            proof {
                lemma_skip_fill(bytes, at);
            }
            if 0xd0 <= marker <= 0xd9 {
                jpeg_scan(bytes, next)
            } else if marker == 0xda {
                None
            } else {
                match be_at(bytes, next, 2) {
                    None => None,
                    Some(length) => if length < 2 {
                        None
                    } else if is_frame_marker(marker) {
                        match (be_at(bytes, next + 5, 2), be_at(bytes, next + 3, 2)) {
                            (Some(width), Some(height)) => Some((width, height)),
                            _ => None,
                        }
                    } else if next + length >= bytes.len() {
                        None
                    } else {
                        jpeg_scan(bytes, next + length)
                    },
                }
            }
        }
    }
}

pub proof fn lemma_skip_fill(bytes: Seq<u8>, at: int)
    requires
        0 <= at <= bytes.len(),
    ensures
        at <= skip_fill(bytes, at) <= bytes.len(),
    decreases bytes.len() - at,
{
    if at < bytes.len() && bytes[at] == 0xff {
        lemma_skip_fill(bytes, at + 1);
    }
}

pub open spec fn png_signature() -> Seq<u8> {
    seq![0x89, 0x50, 0x4e, 0x47, 0x0d, 0x0a, 0x1a, 0x0a]
}

/// The dimensions a WebP header names, from the chunk after `RIFF....WEBP`.
pub open spec fn webp_size(bytes: Seq<u8>) -> Option<(nat, nat)> {
    if bytes.len() < 16 {
        None
    } else {
        let chunk = bytes.subrange(12, 16);
        if chunk == seq![0x56u8, 0x50, 0x38, 0x20] && bytes.len() >= 26 && bytes.subrange(23, 26)
            == seq![0x9du8, 0x01, 0x2a] {
            match (le_at(bytes, 26, 2), le_at(bytes, 28, 2)) {
                (Some(width), Some(height)) => Some((width % 0x4000, height % 0x4000)),
                _ => None,
            }
        } else if chunk == seq![0x56u8, 0x50, 0x38, 0x4c] && bytes.len() > 20 && bytes[20] == 0x2f {
            match le_at(bytes, 21, 4) {
                Some(bits) => Some((bits % 0x4000 + 1, bits / 0x4000 % 0x4000 + 1)),
                None => None,
            }
        } else if chunk == seq![0x56u8, 0x50, 0x38, 0x58] {
            match (le_at(bytes, 24, 3), le_at(bytes, 27, 3)) {
                (Some(width), Some(height)) => Some((width + 1, height + 1)),
                _ => None,
            }
        } else {
            None
        }
    }
}

/// Whether the extension names a Targa file, in either case.
pub open spec fn is_targa_extension(extension: Seq<char>) -> bool {
    ascii_lowercase(extension) == "tga"@ || ascii_lowercase(extension) == "targa"@
}

/// The dimensions a header states, before zero sizes are ruled out.
pub open spec fn header_size(bytes: Seq<u8>, extension: Seq<char>) -> Option<(nat, nat)> {
    if begins(bytes, png_signature()) {
        match (be_at(bytes, 16, 4), be_at(bytes, 20, 4)) {
            (Some(width), Some(height)) => Some((width, height)),
            _ => None,
        }
    } else if begins(bytes, seq![0x42u8, 0x4d]) {
        match (le_at(bytes, 18, 4), le_at(bytes, 22, 4)) {
            (Some(width), Some(height)) => Some((magnitude(width), magnitude(height))),
            _ => None,
        }
    } else if begins(bytes, seq![0x52u8, 0x49, 0x46, 0x46]) && bytes.len() >= 12 && bytes.subrange(
        8,
        12,
    ) == seq![0x57u8, 0x45, 0x42, 0x50] {
        webp_size(bytes)
    } else if begins(bytes, seq![0xffu8, 0xd8]) {
        jpeg_scan(bytes, 2)
    } else if is_targa_extension(extension) && bytes.len() > 2 && (bytes[2] == 0 || bytes[2] == 1
        || bytes[2] == 2 || bytes[2] == 3 || bytes[2] == 9 || bytes[2] == 10 || bytes[2] == 11) {
        match (le_at(bytes, 12, 2), le_at(bytes, 14, 2)) {
            (Some(width), Some(height)) => Some((width, height)),
            _ => None,
        }
    } else {
        None
    }
}

/// A header with none of the known signatures, on a file not named as a Targa, gives nothing;
/// what is given is never a zero size.
pub proof fn lemma_unknown_headers_give_nothing(bytes: Seq<u8>, extension: Seq<char>)
    ensures
        !begins(bytes, png_signature()) && !begins(bytes, seq![0x42u8, 0x4d]) && !begins(
            bytes,
            seq![0x52u8, 0x49, 0x46, 0x46],
        ) && !begins(bytes, seq![0xffu8, 0xd8]) && !is_targa_extension(extension) ==> header_dimensions(
            bytes,
            extension,
        ) is None,
        header_dimensions(bytes, extension) matches Some((width, height)) ==> width > 0 && height > 0,
{
}

/// A JPEG segment that is neither a frame header nor a standalone marker nor the start of scan
/// (an APPn, a quantisation or Huffman table, a comment) is passed over by its stated length:
/// the walk goes on at the segment that follows it, and finds there what it would have found
/// had it started there.
pub proof fn lemma_jpeg_skips_other_segments(bytes: Seq<u8>, at: int, length: nat)
    requires
        0 <= at,
        at + 3 < bytes.len(),
        bytes[at] == 0xff,
        bytes[at + 1] < 0xc0 || bytes[at + 1] == 0xc4 || bytes[at + 1] == 0xc8 || bytes[at + 1] == 0xcc || (0xdb
            <= bytes[at + 1] <= 0xfe),
        length == bytes[at + 2] as nat * 256 + bytes[at + 3] as nat,
        length >= 2,
    ensures
        jpeg_scan(bytes, at) == jpeg_scan(bytes, at + 2 + length),
{
    reveal_with_fuel(be_at, 3);
    assert(skip_fill(bytes, at + 1) == at + 1);
    assert(skip_fill(bytes, at) == at + 1);
    assert(be_at(bytes, at + 2, 2) == Some(length));
}

/// At a start-of-frame marker whose segment is there, the walk ends with the width and height
/// that the segment states, big-endian, five and three bytes past its length.
pub proof fn lemma_jpeg_reads_the_frame_header(bytes: Seq<u8>, at: int)
    requires
        0 <= at,
        at + 8 < bytes.len(),
        bytes[at] == 0xff,
        (0xc0 <= bytes[at + 1] <= 0xc3) || (0xc5 <= bytes[at + 1] <= 0xc7) || (0xc9 <= bytes[at + 1] <= 0xcb) || (0xcd
            <= bytes[at + 1] <= 0xcf),
        bytes[at + 2] as nat * 256 + bytes[at + 3] as nat >= 2,
    ensures
        jpeg_scan(bytes, at) == Some(
            (bytes[at + 7] as nat * 256 + bytes[at + 8] as nat, bytes[at + 5] as nat * 256 + bytes[at + 6] as nat),
        ),
{
    reveal_with_fuel(be_at, 3);
    assert(skip_fill(bytes, at + 1) == at + 1);
    assert(skip_fill(bytes, at) == at + 1);
}

/// A JPEG that opens with one segment of another kind (such as the JFIF APP0) and then a frame
/// header is measured by that frame header: its width and height, where neither is zero.
pub proof fn lemma_jpeg_after_a_leading_segment(bytes: Seq<u8>, extension: Seq<char>, length: int)
    requires
        bytes.len() > 12 + length,
        bytes[0] == 0xff,
        bytes[1] == 0xd8,
        bytes[2] == 0xff,
        bytes[3] < 0xc0 || bytes[3] == 0xc4 || bytes[3] == 0xc8 || bytes[3] == 0xcc || (0xdb <= bytes[3] <= 0xfe),
        length == bytes[4] as nat * 256 + bytes[5] as nat,
        length >= 2,
        bytes[4 + length] == 0xff,
        (0xc0 <= bytes[5 + length] <= 0xc3) || (0xc5 <= bytes[5 + length] <= 0xc7) || (0xc9 <= bytes[5 + length]
            <= 0xcb) || (0xcd <= bytes[5 + length] <= 0xcf),
        bytes[6 + length] as nat * 256 + bytes[7 + length] as nat >= 2,
    ensures
        ({
            let width = bytes[11 + length] as nat * 256 + bytes[12 + length] as nat;
            let height = bytes[9 + length] as nat * 256 + bytes[10 + length] as nat;
            header_dimensions(bytes, extension) == if width > 0 && height > 0 {
                Some((width, height))
            } else {
                None
            }
        }),
{
    lemma_jpeg_skips_other_segments(bytes, 2, length as nat);
    lemma_jpeg_reads_the_frame_header(bytes, 4 + length);
    assert(bytes.take(2) =~= seq![0xffu8, 0xd8]);
    assert(bytes.take(8) != png_signature()) by {
        assert(bytes.take(8)[0] != png_signature()[0]);
    }
    assert(bytes.take(2) != seq![0x42u8, 0x4d]) by {
        assert(bytes.take(2)[0] != 0x42u8);
    }
    assert(bytes.take(4) != seq![0x52u8, 0x49, 0x46, 0x46]) by {
        assert(bytes.take(4)[0] != 0x52u8);
    }
}

/// A PNG's size is the two big-endian words of its IHDR chunk, at bytes 16 and 20; a BMP's is
/// the magnitude of the two little-endian words at bytes 18 and 22 (a negative height marks a
/// top-down bitmap); a Targa's, read only when the name says Targa and the image type byte is
/// one Targa defines, is the two little-endian half-words at bytes 12 and 14. Each is reported
/// where neither side is zero.
pub proof fn lemma_fixed_header_sizes(bytes: Seq<u8>, extension: Seq<char>)
    ensures
        bytes.len() >= 24 && begins(bytes, png_signature()) ==> ({
            let width = bytes[16] as nat * 0x100_0000 + bytes[17] as nat * 0x1_0000 + bytes[18] as nat * 0x100
                + bytes[19] as nat;
            let height = bytes[20] as nat * 0x100_0000 + bytes[21] as nat * 0x1_0000 + bytes[22] as nat * 0x100
                + bytes[23] as nat;
            header_dimensions(bytes, extension) == if width > 0 && height > 0 {
                Some((width, height))
            } else {
                None
            }
        }),
        bytes.len() >= 26 && bytes[0] == 0x42 && bytes[1] == 0x4d ==> ({
            let width = magnitude(
                bytes[18] as nat + bytes[19] as nat * 0x100 + bytes[20] as nat * 0x1_0000 + bytes[21] as nat
                    * 0x100_0000,
            );
            let height = magnitude(
                bytes[22] as nat + bytes[23] as nat * 0x100 + bytes[24] as nat * 0x1_0000 + bytes[25] as nat
                    * 0x100_0000,
            );
            header_dimensions(bytes, extension) == if width > 0 && height > 0 {
                Some((width, height))
            } else {
                None
            }
        }),
        bytes.len() >= 16 && !begins(bytes, png_signature()) && !(bytes[0] == 0x42 && bytes[1] == 0x4d) && bytes[0]
            != 0x52 && bytes[0] != 0xff && is_targa_extension(extension) && (bytes[2] == 0 || bytes[2] == 1
            || bytes[2] == 2 || bytes[2] == 3 || bytes[2] == 9 || bytes[2] == 10 || bytes[2] == 11) ==> ({
            let width = bytes[12] as nat + bytes[13] as nat * 0x100;
            let height = bytes[14] as nat + bytes[15] as nat * 0x100;
            header_dimensions(bytes, extension) == if width > 0 && height > 0 {
                Some((width, height))
            } else {
                None
            }
        }),
{
    reveal_with_fuel(be_at, 5);
    reveal_with_fuel(le_at, 5);
    if bytes.len() >= 2 {
        if bytes[0] == 0x42 && bytes[1] == 0x4d {
            assert(bytes.take(2) =~= seq![0x42u8, 0x4d]);
            if bytes.len() >= 8 {
                assert(bytes.take(8)[0] != png_signature()[0]);
            }
        } else {
            assert(bytes.take(2)[0] != 0x42u8 || bytes.take(2)[1] != 0x4du8);
        }
    }
    if bytes.len() >= 4 && bytes[0] != 0x52 {
        assert(bytes.take(4)[0] != 0x52u8);
    }
    if bytes.len() >= 2 && bytes[0] != 0xff {
        assert(bytes.take(2)[0] != 0xffu8);
    }
}

/// What the reader reports: the stated dimensions, when neither is zero.
pub open spec fn header_dimensions(bytes: Seq<u8>, extension: Seq<char>) -> Option<(nat, nat)> {
    match header_size(bytes, extension) {
        Some((width, height)) => if width > 0 && height > 0 {
            Some((width, height))
        } else {
            None
        },
        None => None,
    }
}

pub(crate) fn be16(bytes: &[u8], at: usize) -> (value: Option<u32>)
    ensures
        match be_at(bytes@, at as int, 2) {
            Some(v) => value == Some(v as u32) && v < 0x1_0000,
            None => value is None,
        },
{
    proof {
        reveal_with_fuel(be_at, 3);
    }
    if at <= bytes.len() && 2 <= bytes.len() - at {
        Some(bytes[at] as u32 * 256 + bytes[at + 1] as u32)
    } else {
        None
    }
}

fn le16(bytes: &[u8], at: usize) -> (value: Option<u32>)
    ensures
        match le_at(bytes@, at as int, 2) {
            Some(v) => value == Some(v as u32) && v < 0x1_0000,
            None => value is None,
        },
{
    proof {
        reveal_with_fuel(le_at, 3);
    }
    if at <= bytes.len() && 2 <= bytes.len() - at {
        assert(le_at(bytes@, at + 2, 0) == Some(0nat));
        Some(bytes[at] as u32 + 256 * bytes[at + 1] as u32)
    } else {
        None
    }
}

fn le24(bytes: &[u8], at: usize) -> (value: Option<u32>)
    ensures
        match le_at(bytes@, at as int, 3) {
            Some(v) => value == Some(v as u32) && v < 0x100_0000,
            None => value is None,
        },
{
    proof {
        reveal_with_fuel(le_at, 4);
    }
    if at <= bytes.len() && 3 <= bytes.len() - at {
        assert(le_at(bytes@, at + 3, 0) == Some(0nat));
        Some(bytes[at] as u32 + 256 * bytes[at + 1] as u32 + 65536 * bytes[at + 2] as u32)
    } else {
        None
    }
}

pub(crate) fn be32(bytes: &[u8], at: usize) -> (value: Option<u32>)
    ensures
        match be_at(bytes@, at as int, 4) {
            Some(v) => value == Some(v as u32) && v < 0x1_0000_0000,
            None => value is None,
        },
{
    proof {
        reveal_with_fuel(be_at, 5);
    }
    if at <= bytes.len() && 4 <= bytes.len() - at {
        Some(
            bytes[at] as u32 * 16777216 + bytes[at + 1] as u32 * 65536 + bytes[at + 2] as u32 * 256
                + bytes[at + 3] as u32,
        )
    } else {
        None
    }
}

fn le32(bytes: &[u8], at: usize) -> (value: Option<u32>)
    ensures
        match le_at(bytes@, at as int, 4) {
            Some(v) => value == Some(v as u32) && v < 0x1_0000_0000,
            None => value is None,
        },
{
    proof {
        reveal_with_fuel(le_at, 5);
    }
    if at <= bytes.len() && 4 <= bytes.len() - at {
        assert(le_at(bytes@, at + 4, 0) == Some(0nat));
        Some(
            bytes[at] as u32 + 256 * bytes[at + 1] as u32 + 65536 * bytes[at + 2] as u32 + 16777216
                * bytes[at + 3] as u32,
        )
    } else {
        None
    }
}

fn begins_with(bytes: &[u8], prefix: &[u8]) -> (found: bool)
    ensures
        found == begins(bytes@, prefix@),
{
    if prefix.len() > bytes.len() {
        return false;
    }
    let mut index: usize = 0;
    while index < prefix.len()
        invariant
            prefix@.len() <= bytes@.len(),
            index <= prefix@.len(),
            forall|i: int| 0 <= i < index ==> bytes@[i] == prefix@[i],
        decreases prefix@.len() - index,
    {
        if bytes[index] != prefix[index] {
            assert(bytes@.take(prefix@.len() as int)[index as int] != prefix@[index as int]);
            return false;
        }
        index = index + 1;
    }
    assert(bytes@.take(prefix@.len() as int) =~= prefix@);
    true
}

fn unsigned_abs(value: u32) -> (magnitude_of: u32)
    ensures
        magnitude_of == magnitude(value as nat),
{
    if value < 0x8000_0000 {
        value
    } else {
        u32::MAX - value + 1
    }
}

fn webp(bytes: &[u8]) -> (size: Option<(u32, u32)>)
    ensures
        match webp_size(bytes@) {
            Some((w, h)) => size == Some((w as u32, h as u32)) && w < 0x1_0000_0000 && h
                < 0x1_0000_0000,
            None => size is None,
        },
{
    if bytes.len() < 16 {
        return None;
    }
    let ghost chunk = bytes@.subrange(12, 16);
    if bytes[12] == 0x56 && bytes[13] == 0x50 && bytes[14] == 0x38 && bytes[15] == 0x20 {
        assert(chunk =~= seq![0x56u8, 0x50, 0x38, 0x20]);
        if bytes.len() >= 26 && bytes[23] == 0x9d && bytes[24] == 0x01 && bytes[25] == 0x2a {
            assert(bytes@.subrange(23, 26) =~= seq![0x9du8, 0x01, 0x2a]);
            let width = le16(bytes, 26);
            let height = le16(bytes, 28);
            match (width, height) {
                (Some(width), Some(height)) => {
                    assert(width & 0x3fff == width % 0x4000) by (bit_vector);
                    assert(height & 0x3fff == height % 0x4000) by (bit_vector);
                    Some((width & 0x3fff, height & 0x3fff))
                },
                _ => None,
            }
        } else {
            proof {
                if bytes@.len() >= 26 && bytes@.subrange(23, 26) == seq![0x9du8, 0x01, 0x2a] {
                    assert(bytes@.subrange(23, 26)[0] == bytes@[23]);
                    assert(bytes@.subrange(23, 26)[1] == bytes@[24]);
                    assert(bytes@.subrange(23, 26)[2] == bytes@[25]);
                }
            }
            None
        }
    } else if bytes[12] == 0x56 && bytes[13] == 0x50 && bytes[14] == 0x38 && bytes[15] == 0x4c {
        assert(chunk =~= seq![0x56u8, 0x50, 0x38, 0x4c]);
        assert(chunk != seq![0x56u8, 0x50, 0x38, 0x20]) by {
            assert(chunk[3] != seq![0x56u8, 0x50, 0x38, 0x20][3]);
        }
        if bytes.len() > 20 && bytes[20] == 0x2f {
            match le32(bytes, 21) {
                Some(bits) => {
                    assert(bits & 0x3fff == bits % 0x4000) by (bit_vector);
                    assert((bits >> 14) & 0x3fff == bits / 0x4000 % 0x4000) by (bit_vector);
                    Some(((bits & 0x3fff) + 1, ((bits >> 14) & 0x3fff) + 1))
                },
                None => None,
            }
        } else {
            None
        }
    } else if bytes[12] == 0x56 && bytes[13] == 0x50 && bytes[14] == 0x38 && bytes[15] == 0x58 {
        assert(chunk =~= seq![0x56u8, 0x50, 0x38, 0x58]);
        assert(chunk != seq![0x56u8, 0x50, 0x38, 0x20]) by {
            assert(chunk[3] != seq![0x56u8, 0x50, 0x38, 0x20][3]);
        }
        assert(chunk != seq![0x56u8, 0x50, 0x38, 0x4c]) by {
            assert(chunk[3] != seq![0x56u8, 0x50, 0x38, 0x4c][3]);
        }
        match (le24(bytes, 24), le24(bytes, 27)) {
            (Some(width), Some(height)) => Some((width + 1, height + 1)),
            _ => None,
        }
    } else {
        proof {
            let signatures = seq![
                seq![0x56u8, 0x50, 0x38, 0x20],
                seq![0x56u8, 0x50, 0x38, 0x4c],
                seq![0x56u8, 0x50, 0x38, 0x58],
            ];
            assert forall|k: int| 0 <= k < 3 implies chunk != #[trigger] signatures[k] by {
                if chunk == signatures[k] {
                    assert(chunk[0] == bytes@[12] && chunk[1] == bytes@[13]);
                    assert(chunk[2] == bytes@[14] && chunk[3] == bytes@[15]);
                    assert(signatures[k][3] == chunk[3]);
                }
            }
            assert(chunk != signatures[0] && chunk != signatures[1] && chunk != signatures[2]);
        }
        None
    }
}

/// The big-endian 16-bit number `offset` bytes after `at`, when the bytes are there.
fn be16_after(bytes: &[u8], at: usize, offset: usize) -> (value: Option<u32>)
    requires
        at <= bytes@.len(),
    ensures
        match be_at(bytes@, at + offset, 2) {
            Some(v) => value == Some(v as u32) && v < 0x1_0000,
            None => value is None,
        },
{
    if offset <= bytes.len() - at {
        be16(bytes, at + offset)
    } else {
        proof {
            reveal_with_fuel(be_at, 3);
        }
        None
    }
}

fn jpeg(bytes: &[u8]) -> (size: Option<(u32, u32)>)
    ensures
        match jpeg_scan(bytes@, 2) {
            Some((w, h)) => size == Some((w as u32, h as u32)) && w < 0x1_0000 && h < 0x1_0000,
            None => size is None,
        },
{
    let mut at: usize = 2;
    while at < bytes.len() && bytes.len() - at > 1
        invariant
            2 <= at,
            at == 2 || at < bytes@.len(),
            jpeg_scan(bytes@, at as int) == jpeg_scan(bytes@, 2),
        decreases bytes@.len() - at,
    {
        if bytes[at] != 0xff {
            return None;
        }
        let mut marker_at = at;
        while marker_at < bytes.len() && bytes[marker_at] == 0xff
            invariant
                at <= marker_at <= bytes@.len(),
                skip_fill(bytes@, marker_at as int) == skip_fill(bytes@, at as int),
            decreases bytes@.len() - marker_at,
        {
            marker_at = marker_at + 1;
        }
        if marker_at >= bytes.len() {
            return None;
        }
        let marker = bytes[marker_at];
        let next = marker_at + 1;
        if 0xd0 <= marker && marker <= 0xd9 {
            if next >= bytes.len() - 1 {
                assert(jpeg_scan(bytes@, next as int) is None);
                return None;
            }
            at = next;
        } else if marker == 0xda {
            return None;
        } else {
            let length = match be16_after(bytes, next, 0) {
                Some(length) => length as usize,
                None => {
                    return None;
                },
            };
            if length < 2 {
                return None;
            }
            if (0xc0 <= marker && marker <= 0xc3) || (0xc5 <= marker && marker <= 0xc7) || (0xc9
                <= marker && marker <= 0xcb) || (0xcd <= marker && marker <= 0xcf) {
                return match (be16_after(bytes, next, 5), be16_after(bytes, next, 3)) {
                    (Some(width), Some(height)) => Some((width, height)),
                    _ => None,
                };
            }
            if length >= bytes.len() - next {
                return None;
            }
            at = next + length;
        }
    }
    None
}

/// Reads the width and height a picture's header states, from its first bytes and the
/// extension of its file name.
///
/// PNG, BMP, WebP and JPEG are recognised by their signatures; TGA, which has none, by the
/// extension and the image type byte. A size of zero either way, a truncated header and an
/// unknown format all give nothing.
pub fn parse(b: &[u8], extension: &str) -> (size: Option<(u32, u32)>)
    ensures
        match header_dimensions(b@, extension@) {
            Some((w, h)) => size == Some((w as u32, h as u32)),
            None => size is None,
        },
        size matches Some((w, h)) ==> w > 0 && h > 0,
{
    let result = if begins_with(b, &[0x89, 0x50, 0x4e, 0x47, 0x0d, 0x0a, 0x1a, 0x0a]) {
        match (be32(b, 16), be32(b, 20)) {
            (Some(width), Some(height)) => Some((width, height)),
            _ => None,
        }
    } else if begins_with(b, &[0x42, 0x4d]) {
        match (le32(b, 18), le32(b, 22)) {
            (Some(width), Some(height)) => Some((unsigned_abs(width), unsigned_abs(height))),
            _ => None,
        }
    } else if begins_with(b, &[0x52, 0x49, 0x46, 0x46]) && b.len() >= 12 && b[8] == 0x57 && b[9]
        == 0x45 && b[10] == 0x42 && b[11] == 0x50 {
        assert(b@.subrange(8, 12) =~= seq![0x57u8, 0x45, 0x42, 0x50]);
        webp(b)
    } else if begins_with(b, &[0xff, 0xd8]) {
        proof {
            if begins(b@, seq![0x52u8, 0x49, 0x46, 0x46]) && b@.len() >= 12 && b@.subrange(8, 12)
                == seq![0x57u8, 0x45, 0x42, 0x50] {
                assert(b@.subrange(8, 12)[0] == b@[8]);
            }
        }
        jpeg(b)
    } else {
        proof {
            if begins(b@, seq![0x52u8, 0x49, 0x46, 0x46]) && b@.len() >= 12 && b@.subrange(8, 12)
                == seq![0x57u8, 0x45, 0x42, 0x50] {
                assert(b@.subrange(8, 12)[0] == b@[8] && b@.subrange(8, 12)[1] == b@[9]);
                assert(b@.subrange(8, 12)[2] == b@[10] && b@.subrange(8, 12)[3] == b@[11]);
            }
        }
        let extension_chars = chars_of(extension);
        let lower = lowercase_ascii(&extension_chars);
        let targa = equals_text(&lower, "tga") || equals_text(&lower, "targa");
        if targa && b.len() > 2 && (b[2] == 0 || b[2] == 1 || b[2] == 2 || b[2] == 3 || b[2] == 9
            || b[2] == 10 || b[2] == 11) {
            match (le16(b, 12), le16(b, 14)) {
                (Some(width), Some(height)) => Some((width, height)),
                _ => None,
            }
        } else {
            None
        }
    };
    match result {
        Some((width, height)) => if width > 0 && height > 0 {
            Some((width, height))
        } else {
            None
        },
        None => None,
    }
}

/// The format a header's signature names, as ImageMagick names it: a `.jpg` reads as `JPEG`.
/// A file that gave a size without a signature was read as a Targa.
pub open spec fn header_format(bytes: Seq<u8>) -> Seq<char> {
    if begins(bytes, png_signature()) {
        "PNG"@
    } else if begins(bytes, seq![0x42u8, 0x4d]) {
        "BMP"@
    } else if begins(bytes, seq![0x52u8, 0x49, 0x46, 0x46]) && bytes.len() >= 12 && bytes.subrange(8, 12)
        == seq![0x57u8, 0x45, 0x42, 0x50] {
        "WEBP"@
    } else if begins(bytes, seq![0xffu8, 0xd8]) {
        "JPEG"@
    } else {
        "TGA"@
    }
}

/// Reads the width and height a picture's header states, with the format its signature names.
pub fn probe(b: &[u8], extension: &str) -> (found: Option<(u32, u32, &'static str)>)
    ensures
        match header_dimensions(b@, extension@) {
            Some((w, h)) => found matches Some((width, height, name)) && width == w as u32 && height == h as u32 && name@
                == header_format(b@),
            None => found is None,
        },
{
    let (width, height) = match parse(b, extension) {
        Some(size) => size,
        None => return None,
    };
    let name = if begins_with(b, &[0x89, 0x50, 0x4e, 0x47, 0x0d, 0x0a, 0x1a, 0x0a]) {
        assert(seq![0x89u8, 0x50, 0x4e, 0x47, 0x0d, 0x0a, 0x1a, 0x0a] =~= png_signature());
        "PNG"
    } else if begins_with(b, &[0x42, 0x4d]) {
        "BMP"
    } else if begins_with(b, &[0x52, 0x49, 0x46, 0x46]) && b.len() >= 12 && b[8] == 0x57 && b[9] == 0x45
        && b[10] == 0x42 && b[11] == 0x50 {
        assert(b@.subrange(8, 12) =~= seq![0x57u8, 0x45, 0x42, 0x50]);
        "WEBP"
    } else {
        proof {
            if begins(b@, seq![0x52u8, 0x49, 0x46, 0x46]) && b@.len() >= 12 && b@.subrange(8, 12)
                == seq![0x57u8, 0x45, 0x42, 0x50] {
                assert(b@.subrange(8, 12)[0] == b@[8] && b@.subrange(8, 12)[1] == b@[9]);
                assert(b@.subrange(8, 12)[2] == b@[10] && b@.subrange(8, 12)[3] == b@[11]);
            }
        }
        if begins_with(b, &[0xff, 0xd8]) {
            "JPEG"
        } else {
            "TGA"
        }
    };
    Some((width, height, name))
}

/// The format comes from the file's first bytes, never from its name: bytes that open with
/// `FF D8` are a JPEG, with the PNG signature a PNG, with `BM` a BMP, with `RIFF....WEBP` a
/// WebP; a picture is called a Targa only when none of these opens it and its name says
/// Targa.
pub proof fn lemma_format_follows_the_signature(bytes: Seq<u8>, extension: Seq<char>)
    ensures
        bytes.len() >= 2 && bytes[0] == 0xff && bytes[1] == 0xd8 ==> header_format(bytes) == "JPEG"@,
        bytes.len() >= 8 && bytes[0] == 0x89 && bytes[1] == 0x50 && bytes[2] == 0x4e && bytes[3] == 0x47
            && bytes[4] == 0x0d && bytes[5] == 0x0a && bytes[6] == 0x1a && bytes[7] == 0x0a ==> header_format(bytes)
            == "PNG"@,
        bytes.len() >= 2 && bytes[0] == 0x42 && bytes[1] == 0x4d ==> header_format(bytes) == "BMP"@,
        bytes.len() >= 12 && bytes[0] == 0x52 && bytes[1] == 0x49 && bytes[2] == 0x46 && bytes[3] == 0x46
            && bytes[8] == 0x57 && bytes[9] == 0x45 && bytes[10] == 0x42 && bytes[11] == 0x50 ==> header_format(
            bytes,
        ) == "WEBP"@,
        header_dimensions(bytes, extension) is Some && header_format(bytes) == "TGA"@ ==> is_targa_extension(
            extension,
        ),
{
    reveal_strlit("JPEG");
    reveal_strlit("PNG");
    reveal_strlit("BMP");
    reveal_strlit("WEBP");
    reveal_strlit("TGA");
    assert("PNG"@[0] != "TGA"@[0] && "BMP"@[0] != "TGA"@[0] && "JPEG"@.len() != "TGA"@.len() && "WEBP"@.len()
        != "TGA"@.len());
    if bytes.len() >= 2 {
        if bytes[0] == 0xff && bytes[1] == 0xd8 {
            assert(bytes.take(2) =~= seq![0xffu8, 0xd8]);
            assert(bytes.take(2)[0] != 0x42u8);
            if bytes.len() >= 4 {
                assert(bytes.take(4)[0] != 0x52u8);
            }
            if bytes.len() >= 8 {
                assert(bytes.take(8)[0] != png_signature()[0]);
            }
        }
        if bytes[0] == 0x42 && bytes[1] == 0x4d {
            assert(bytes.take(2) =~= seq![0x42u8, 0x4d]);
            if bytes.len() >= 8 {
                assert(bytes.take(8)[0] != png_signature()[0]);
            }
        }
    }
    if bytes.len() >= 8 && bytes[0] == 0x89 && bytes[1] == 0x50 && bytes[2] == 0x4e && bytes[3] == 0x47
        && bytes[4] == 0x0d && bytes[5] == 0x0a && bytes[6] == 0x1a && bytes[7] == 0x0a {
        assert(bytes.take(8) =~= png_signature());
    }
    if bytes.len() >= 12 && bytes[0] == 0x52 && bytes[1] == 0x49 && bytes[2] == 0x46 && bytes[3] == 0x46
        && bytes[8] == 0x57 && bytes[9] == 0x45 && bytes[10] == 0x42 && bytes[11] == 0x50 {
        assert(bytes.take(4) =~= seq![0x52u8, 0x49, 0x46, 0x46]);
        assert(bytes.subrange(8, 12) =~= seq![0x57u8, 0x45, 0x42, 0x50]);
        assert(bytes.take(2)[0] != 0x42u8);
        assert(bytes.take(8)[0] != png_signature()[0]);
    }
}

} // verus!
