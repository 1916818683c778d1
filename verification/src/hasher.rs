//! Keccak-256 hashing of words and of hash pairs, with lowercase hex output.

use vstd::prelude::*;

verus! {

/// The lowercase hex digit for a value below sixteen.
pub open spec fn hex_char(d: int) -> char {
    if d == 0 {
        '0'
    } else if d == 1 {
        '1'
    } else if d == 2 {
        '2'
    } else if d == 3 {
        '3'
    } else if d == 4 {
        '4'
    } else if d == 5 {
        '5'
    } else if d == 6 {
        '6'
    } else if d == 7 {
        '7'
    } else if d == 8 {
        '8'
    } else if d == 9 {
        '9'
    } else if d == 10 {
        'a'
    } else if d == 11 {
        'b'
    } else if d == 12 {
        'c'
    } else if d == 13 {
        'd'
    } else if d == 14 {
        'e'
    } else {
        'f'
    }
}

fn hex_char_of(d: u8) -> (c: char)
    requires
        d < 16,
    ensures
        c == hex_char(d as int),
{
    if d == 0 {
        '0'
    } else if d == 1 {
        '1'
    } else if d == 2 {
        '2'
    } else if d == 3 {
        '3'
    } else if d == 4 {
        '4'
    } else if d == 5 {
        '5'
    } else if d == 6 {
        '6'
    } else if d == 7 {
        '7'
    } else if d == 8 {
        '8'
    } else if d == 9 {
        '9'
    } else if d == 10 {
        'a'
    } else if d == 11 {
        'b'
    } else if d == 12 {
        'c'
    } else if d == 13 {
        'd'
    } else if d == 14 {
        'e'
    } else {
        'f'
    }
}

/// The lowercase hex encoding of a byte sequence: two digits per byte,
/// high nibble first.
pub open spec fn hex_of(bytes: Seq<u8>) -> Seq<char> {
    Seq::new(
        bytes.len() * 2,
        |i: int|
            if i % 2 == 0 {
                hex_char(bytes[i / 2] as int / 16)
            } else {
                hex_char(bytes[i / 2] as int % 16)
            },
    )
}

/// The Keccak-256 digest of a word's UTF-8 bytes. The digest is a fixed
/// function of the characters alone, so it carries no definition here:
/// nothing is assumed of it beyond what `keccak_digest` states.
pub uninterp spec fn keccak_of(word: Seq<char>) -> Seq<u8>;

/// The hex-encoded Keccak-256 hash of a word, as the tree stores it.
pub open spec fn word_hash(word: Seq<char>) -> Seq<char> {
    hex_of(keccak_of(word))
}

/// The hash of a node over its two children: the children's hex hash
/// strings are concatenated as text, and the concatenation is hashed
/// as a word of its own.
pub open spec fn combined_hash(left: Seq<char>, right: Seq<char>) -> Seq<char> {
    word_hash(left + right)
}

/// Relies on `keccak_hash::keccak_256`: fills the 32-byte output buffer
/// with the Keccak-256 digest of the input bytes; the digest depends on
/// the input bytes (here, the word's UTF-8 encoding) alone.
#[verifier::external_body]
fn keccak_digest(word: &str) -> (digest: Vec<u8>)
    ensures
        digest@ == keccak_of(word@),
        digest@.len() == 32,
{
    let mut output = [0u8; 32];
    keccak_hash::keccak_256(word.as_bytes(), &mut output);
    output.to_vec()
}

/// Relies on `String::push`: appends the given character to the end of
/// the string.
pub assume_specification[ String::push ](s: &mut String, ch: char)
    ensures
        final(s)@ == old(s)@.push(ch),
;

/// Encodes a byte sequence as lowercase hex, two digits per byte.
fn bytes_to_hex(bytes: &Vec<u8>) -> (r: String)
    ensures
        r@ == hex_of(bytes@),
{
    let mut r = String::new();
    let mut i: usize = 0;
    while i < bytes.len()
        invariant
            i <= bytes@.len(),
            r@ =~= hex_of(bytes@.take(i as int)),
        decreases bytes@.len() - i,
    {
        let b = bytes[i];
        r.push(hex_char_of(b / 16));
        r.push(hex_char_of(b % 16));
        proof {
            assert(r@ =~= hex_of(bytes@.take(i + 1)));
        }
        i = i + 1;
    }
    proof {
        assert(bytes@.take(bytes@.len() as int) =~= bytes@);
    }
    r
}

/// Hashes a single word: the lowercase hex encoding of the Keccak-256
/// digest of its UTF-8 bytes. Deterministic; the empty word is allowed.
pub fn keccak_256(word: &str) -> (r: String)
    ensures
        r@ == word_hash(word@),
        r@.len() == 64,
{
    let digest = keccak_digest(word);
    bytes_to_hex(&digest)
}

/// Hashes each word of a list in order, one hash per word.
pub fn hash_words(words: Vec<&str>) -> (hashes: Vec<String>)
    ensures
        hashes@.len() == words@.len(),
        forall|i: int| 0 <= i < words@.len() ==> hashes@[i]@ == word_hash(words@[i]@),
{
    let mut hashes: Vec<String> = Vec::new();
    let mut i: usize = 0;
    while i < words.len()
        invariant
            i <= words@.len(),
            hashes@.len() == i,
            forall|j: int| 0 <= j < i ==> hashes@[j]@ == word_hash(words@[j]@),
        decreases words@.len() - i,
    {
        let hash = keccak_256(words[i]);
        hashes.push(hash);
        i = i + 1;
    }
    hashes
}

/// Hashes the pair of a left and a right hash: the two hex strings are
/// concatenated as text, left first, and the result is hashed as a word.
pub fn hash_combination(left: &String, right: &String) -> (r: String)
    ensures
        r@ == combined_hash(left@, right@),
        r@.len() == 64,
{
    let joined = left.clone().concat(right.as_str());
    keccak_256(joined.as_str())
}

} // verus!
