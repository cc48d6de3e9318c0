//! The supported-extension check on candidate paths.
//!
//! A path's text is modelled through its UTF-8 bytes (`vstd`'s
//! `encode_utf8` ties a string's characters to the bytes that
//! `str::as_bytes` yields).  The separator and dot bytes are plain
//! ASCII, so they never occur inside the encoding of another character,
//! and byte-level scanning finds exactly the character-level segment
//! and extension boundaries.

use vstd::prelude::*;

verus! {

use vstd::utf8::encode_utf8;

/// The byte that separates path segments.
pub const SEPARATOR: u8 = 47;

/// The byte that introduces a file extension.
pub const DOT: u8 = 46;

/// Index of the last occurrence of `target` in `bytes`, or `-1` when
/// `target` does not occur.
pub open spec fn last_index_of(bytes: Seq<u8>, target: u8) -> int
    decreases bytes.len(),
{
    if bytes.len() == 0 {
        -1
    } else if bytes.last() == target {
        bytes.len() - 1
    } else {
        last_index_of(bytes.drop_last(), target)
    }
}

/// `last_index_of` points at an occurrence of `target`, and nothing
/// after it is one.
pub proof fn lemma_last_index_of(bytes: Seq<u8>, target: u8)
    ensures
        -1 <= last_index_of(bytes, target) < bytes.len(),
        last_index_of(bytes, target) >= 0 ==> bytes[last_index_of(bytes, target)] == target,
        forall|j: int| last_index_of(bytes, target) < j < bytes.len() ==> bytes[j] != target,
    decreases bytes.len(),
{
    if bytes.len() > 0 && bytes.last() != target {
        lemma_last_index_of(bytes.drop_last(), target);
        assert(forall|j: int| 0 <= j < bytes.len() - 1 ==> bytes[j] == bytes.drop_last()[j]);
    }
}

/// An index with an occurrence of `target` and none after it is the
/// last index.
pub proof fn lemma_last_index_of_at(bytes: Seq<u8>, target: u8, i: int)
    requires
        0 <= i < bytes.len(),
        bytes[i] == target,
        forall|j: int| i < j < bytes.len() ==> bytes[j] != target,
    ensures
        last_index_of(bytes, target) == i,
{
    lemma_last_index_of(bytes, target);
}

/// Where no byte is `target`, there is no last index.
pub proof fn lemma_last_index_of_absent(bytes: Seq<u8>, target: u8)
    requires
        forall|j: int| 0 <= j < bytes.len() ==> bytes[j] != target,
    ensures
        last_index_of(bytes, target) == -1,
{
    lemma_last_index_of(bytes, target);
}

/// The final path segment: everything after the last separator, or the
/// whole path when it has none.
pub open spec fn file_name_of(bytes: Seq<u8>) -> Seq<u8> {
    bytes.subrange(last_index_of(bytes, SEPARATOR) + 1, bytes.len() as int)
}

/// The extension of the final path segment: the bytes after the
/// segment's last dot.  A segment without a dot has no extension, and
/// neither has one whose only dot leads it (a hidden-file name).
pub open spec fn extension_of(bytes: Seq<u8>) -> Option<Seq<u8>> {
    let name = file_name_of(bytes);
    let dot = last_index_of(name, DOT);
    if dot <= 0 {
        None
    } else {
        Some(name.subrange(dot + 1, name.len() as int))
    }
}

/// ASCII lower-casing of one byte.
pub open spec fn ascii_lower(b: u8) -> u8 {
    if 65 <= b <= 90 {
        (b + 32) as u8
    } else {
        b
    }
}

/// ASCII lower-casing of a byte sequence.
pub open spec fn lower_seq(bytes: Seq<u8>) -> Seq<u8> {
    bytes.map_values(|b: u8| ascii_lower(b))
}

/// The supported-format set: an extension is supported when its
/// lower-cased bytes read `png`, `jpg`, `jpeg`, `bmp` or `webp`.
pub open spec fn supported_extension(ext: Seq<u8>) -> bool {
    let low = lower_seq(ext);
    ||| low == seq![112u8, 110u8, 103u8]
    ||| low == seq![106u8, 112u8, 103u8]
    ||| low == seq![106u8, 112u8, 101u8, 103u8]
    ||| low == seq![98u8, 109u8, 112u8]
    ||| low == seq![119u8, 101u8, 98u8, 112u8]
}

/// A byte sequence names a supported image when its final segment has a
/// supported extension.
pub open spec fn supported_path(bytes: Seq<u8>) -> bool {
    match extension_of(bytes) {
        Some(ext) => supported_extension(ext),
        None => false,
    }
}

/// The extension check on a path's text: case-insensitive membership of
/// its extension in the supported-format set.
pub open spec fn accepts_path(path: Seq<char>) -> bool {
    supported_path(encode_utf8(path))
}

/// Index of the last occurrence of `target`, scanning from the end.
fn rfind_byte(bytes: &[u8], target: u8) -> (found: Option<usize>)
    ensures
        bytes@.len() <= usize::MAX,
        match found {
            Some(i) => i < bytes@.len() && i == last_index_of(bytes@, target),
            None => last_index_of(bytes@, target) == -1,
        },
{
    let mut i: usize = bytes.len();
    while i > 0
        invariant
            i <= bytes@.len(),
            forall|j: int| i <= j < bytes@.len() ==> bytes@[j] != target,
        decreases i,
    {
        i = i - 1;
        if bytes[i] == target {
            proof {
                lemma_last_index_of_at(bytes@, target, i as int);
            }
            return Some(i);
        }
    }
    proof {
        lemma_last_index_of_absent(bytes@, target);
    }
    None
}

/// ASCII lower-casing of one byte.
fn lower_byte(b: u8) -> (low: u8)
    ensures
        low == ascii_lower(b),
{
    if b >= 65 && b <= 90 {
        b + 32
    } else {
        b
    }
}

/// Lower-cased copy of `bytes[start..]`.
fn lowered_tail(bytes: &[u8], start: usize) -> (low: Vec<u8>)
    requires
        start <= bytes@.len(),
    ensures
        low@ == lower_seq(bytes@.subrange(start as int, bytes@.len() as int)),
{
    let mut low: Vec<u8> = Vec::new();
    let mut i: usize = start;
    while i < bytes.len()
        invariant
            start <= i <= bytes@.len(),
            low@ == lower_seq(bytes@.subrange(start as int, i as int)),
        decreases bytes@.len() - i,
    {
        low.push(lower_byte(bytes[i]));
        proof {
            assert(low@ =~= lower_seq(bytes@.subrange(start as int, i + 1)));
        }
        i = i + 1;
    }
    proof {
        assert(bytes@.subrange(start as int, i as int) =~= bytes@.subrange(
            start as int,
            bytes@.len() as int,
        ));
    }
    low
}

/// Whether `low` holds exactly the three given bytes.
fn matches3(low: &Vec<u8>, b0: u8, b1: u8, b2: u8) -> (eq: bool)
    ensures
        eq == (low@ == seq![b0, b1, b2]),
{
    let eq = low.len() == 3 && low[0] == b0 && low[1] == b1 && low[2] == b2;
    proof {
        if eq {
            assert(low@ =~= seq![b0, b1, b2]);
        } else {
            if low@ == seq![b0, b1, b2] {
                assert(low@.len() == 3);
                assert(low@[0] == b0 && low@[1] == b1 && low@[2] == b2);
            }
        }
    }
    eq
}

/// Whether `low` holds exactly the four given bytes.
fn matches4(low: &Vec<u8>, b0: u8, b1: u8, b2: u8, b3: u8) -> (eq: bool)
    ensures
        eq == (low@ == seq![b0, b1, b2, b3]),
{
    let eq = low.len() == 4 && low[0] == b0 && low[1] == b1 && low[2] == b2 && low[3] == b3;
    proof {
        if eq {
            assert(low@ =~= seq![b0, b1, b2, b3]);
        } else {
            if low@ == seq![b0, b1, b2, b3] {
                assert(low@.len() == 4);
                assert(low@[0] == b0 && low@[1] == b1 && low@[2] == b2 && low@[3] == b3);
            }
        }
    }
    eq
}

/// Decides the extension check: whether the final segment of `path` has
/// an extension whose lower-cased text is a supported image format.
pub fn has_supported_extension(path: &str) -> (supported: bool)
    ensures
        supported == accepts_path(path@),
{
    let bytes: &[u8] = path.as_bytes();
    let name_start: usize = match rfind_byte(bytes, SEPARATOR) {
        Some(i) => i + 1,
        None => 0,
    };
    let dot_index: Option<usize> = rfind_byte(bytes, DOT);
    proof {
        lemma_last_index_of(bytes@, SEPARATOR);
        lemma_last_index_of(bytes@, DOT);
        let s = last_index_of(bytes@, SEPARATOR);
        let d = last_index_of(bytes@, DOT);
        let name = file_name_of(bytes@);
        if d > s {
            assert(name[d - s - 1] == bytes@[d]);
            assert forall|j: int| d - s - 1 < j < name.len() implies name[j] != DOT by {
                assert(name[j] == bytes@[s + 1 + j]);
            }
            lemma_last_index_of_at(name, DOT, d - s - 1);
        } else {
            assert forall|j: int| 0 <= j < name.len() implies name[j] != DOT by {
                assert(name[j] == bytes@[s + 1 + j]);
            }
            lemma_last_index_of_absent(name, DOT);
        }
    }
    match dot_index {
        None => false,
        Some(d) => {
            if d <= name_start {
                false
            } else {
                let low = lowered_tail(bytes, d + 1);
                proof {
                    let name = file_name_of(bytes@);
                    let dot = last_index_of(name, DOT);
                    assert(name.subrange(dot + 1, name.len() as int) =~= bytes@.subrange(
                        d + 1,
                        bytes@.len() as int,
                    ));
                }
                // lower-cased byte spellings of png, jpg, jpeg, bmp, webp
                let supported = matches3(&low, 112, 110, 103)
                    || matches3(&low, 106, 112, 103)
                    || matches4(&low, 106, 112, 101, 103)
                    || matches3(&low, 98, 109, 112)
                    || matches4(&low, 119, 101, 98, 112);
                supported
            }
        },
    }
}

/// Decides whether a startup candidate passes validation: it must be an
/// existing regular file — `is_regular_file` carries the caller's
/// file-system probe — and its path must pass the extension check.
pub fn is_supported_image(path: &str, is_regular_file: bool) -> (supported: bool)
    ensures
        supported == (is_regular_file && accepts_path(path@)),
{
    is_regular_file && has_supported_extension(path)
}

} // verus!
