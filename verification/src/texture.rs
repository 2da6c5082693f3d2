//! Texture identifiers: the host's half of the identifier space the renderer keeps, and what
//! Dear ImGui asks of the host for its own half.
use vstd::prelude::*;
use vstd::utf8::encode_utf8;

verus! {

/// The identifier space Dear ImGui's own textures are given, so that they cannot collide with
/// the host's: the host masks this bit off its own identifiers.
pub const IMGUI_TEXTURE_ID_BIT: u64 = 0x8000_0000_0000_0000;

/// The offset basis of the 64-bit Fowler, Noll and Vo hash.
pub const FNV_OFFSET: u64 = 0xcbf2_9ce4_8422_2325;

/// The prime of the 64-bit Fowler, Noll and Vo hash.
pub const FNV_PRIME: u64 = 0x0000_0100_0000_01b3;

/// One round of an FNV-1a style hash: mix a byte in, then multiply by `prime` modulo two to
/// the sixty-fourth.
pub open spec fn hash_step(hash: u64, byte: u8, prime: u64) -> u64 {
    (((hash ^ (byte as u64)) as nat * prime as nat) % 0x1_0000_0000_0000_0000) as u64
}

/// An FNV-1a style hash of a byte string, from `start`, with `prime`.
pub open spec fn fold_hash(bytes: Seq<u8>, start: u64, prime: u64) -> u64
    decreases bytes.len(),
{
    if bytes.len() == 0 {
        start
    } else {
        hash_step(fold_hash(bytes.drop_last(), start, prime), bytes.last(), prime)
    }
}

/// The 64-bit FNV-1a hash of a byte string.
pub open spec fn fnv1a(bytes: Seq<u8>) -> u64 {
    fold_hash(bytes, FNV_OFFSET, FNV_PRIME)
}

/// The identifier of a cache key: the hash of its UTF-8 bytes with Dear ImGui's bit cleared
/// and the bit of two set, so that neither zero nor one ("no texture") is ever handed out.
pub open spec fn texture_key_id(key: Seq<char>) -> u64 {
    (fnv1a(encode_utf8(key)) & !IMGUI_TEXTURE_ID_BIT) | 2
}

/// Hashes `bytes` FNV-1a style, from `start`, with `prime`.
pub fn fold_bytes(bytes: &[u8], start: u64, prime: u64) -> (hash: u64)
    ensures
        hash == fold_hash(bytes@, start, prime),
{
    let mut hash: u64 = start;
    let mut index: usize = 0;
    assert(bytes@.take(0) =~= Seq::<u8>::empty());
    while index < bytes.len()
        invariant
            index <= bytes@.len(),
            hash == fold_hash(bytes@.take(index as int), start, prime),
        decreases bytes@.len() - index,
    {
        let byte: u8 = bytes[index];
        hash = (hash ^ (byte as u64)).wrapping_mul(prime);
        assert(bytes@.take(index + 1).drop_last() =~= bytes@.take(index as int));
        index = index + 1;
    }
    assert(bytes@.take(index as int) =~= bytes@);
    hash
}

/// The 64-bit FNV-1a hash of a text's UTF-8 bytes.
pub fn fnv1a_text(text: &str) -> (hash: u64)
    ensures
        hash == fnv1a(encode_utf8(text@)),
{
    fold_bytes(text.as_bytes(), FNV_OFFSET, FNV_PRIME)
}

/// A stable texture identifier for a cache key.
pub fn texture_id(key: &str) -> (id: u64)
    ensures
        id == texture_key_id(key@),
        id & IMGUI_TEXTURE_ID_BIT == 0,
        id >= 2,
{
    let hash = fnv1a_text(key);
    let id: u64 = (hash & !IMGUI_TEXTURE_ID_BIT) | 2;
    proof {
        lemma_texture_id_bits(hash);
    }
    id
}

/// Whatever the hash, an identifier made from it carries neither Dear ImGui's bit nor a value
/// below two.
pub proof fn lemma_texture_id_bits(hash: u64)
    ensures
        ((hash & !IMGUI_TEXTURE_ID_BIT) | 2) & IMGUI_TEXTURE_ID_BIT == 0,
        ((hash & !IMGUI_TEXTURE_ID_BIT) | 2) >= 2,
{
    assert(((hash & !0x8000_0000_0000_0000u64) | 2) & 0x8000_0000_0000_0000u64 == 0)
        by (bit_vector);
    assert(((hash & !0x8000_0000_0000_0000u64) | 2) >= 2) by (bit_vector);
}

/// Every key's identifier lies in the host's half of the space and away from "no texture".
pub proof fn lemma_texture_ids_stay_in_the_hosts_half(key: Seq<char>)
    ensures
        texture_key_id(key) & IMGUI_TEXTURE_ID_BIT == 0,
        texture_key_id(key) >= 2,
{
    lemma_texture_id_bits(fnv1a(encode_utf8(key)));
}

/// One thing the host must do to a texture before the frame just rendered can be drawn.
#[derive(Clone, Debug)]
pub struct TextureRequest {
    /// The identifier the geometry of the frame refers to the texture by. Always carries
    /// [`IMGUI_TEXTURE_ID_BIT`].
    pub id: u64,
    pub action: TextureAction,
}

/// What a [`TextureRequest`] asks for.
#[derive(Clone, Debug)]
pub enum TextureAction {
    /// Create this texture, or replace it wholesale.
    Upload {
        width: u32,
        height: u32,
        /// True when the pixels are one byte of coverage each rather than four of colour.
        coverage: bool,
        pixels: Vec<u8>,
    },
    /// Release this texture; nothing refers to it any more.
    Destroy,
}

} // verus!
