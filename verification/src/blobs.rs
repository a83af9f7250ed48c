//! The blob store: every content under the name that its digest gives it.
use std::path::{Path, PathBuf};

use sha2::{Digest, Sha256};
use vstd::prelude::*;

use crate::paths::{
    as_path, buf_parts, bytes_of, components, extends, join, joined, lemma_plain_name, parts,
    path_buf_bytes, path_bytes,
};
use crate::text::digit_char;

verus! {

/// The SHA-256 digest of a content.
pub uninterp spec fn sha256(content: Seq<u8>) -> Seq<u8>;

/// `Sha256::digest`: the SHA-256 digest of the content, which has 32 bytes.
#[verifier::external_body]
fn digest(content: &[u8]) -> (r: Vec<u8>)
    ensures
        r@ == sha256(content@),
        r@.len() == 32,
{
    Sha256::digest(content).to_vec()
}

/// The hexadecimal digit that stands for `d`, in lower case.
pub open spec fn hex_digit(d: int) -> char {
    if d < 10 {
        digit_char(d)
    } else if d == 10 {
        'a'
    } else if d == 11 {
        'b'
    } else if d == 12 {
        'c'
    } else if d == 13 {
        'd'
    } else if d == 14 {
        'e'
    } else {
        'f'
    }
}

/// Two lower-case hexadecimal digits for every byte, the higher one first.
pub open spec fn hex_text(data: Seq<u8>) -> Seq<char> {
    Seq::new(
        2 * data.len(),
        |i: int|
            if i % 2 == 0 {
                hex_digit(data[i / 2] as int / 16)
            } else {
                hex_digit(data[i / 2] as int % 16)
            },
    )
}

/// `hex::encode`: two lower-case hexadecimal digits for every byte.
#[verifier::external_body]
fn hex_encode(data: &Vec<u8>) -> (r: String)
    ensures
        r@ == hex_text(data@),
{
    hex::encode(data)
}

/// The name of a content in the store.
pub open spec fn content_name(content: Seq<u8>) -> Seq<char> {
    hex_text(sha256(content))
}

/// Whether `c` is a lower-case hexadecimal digit.
pub open spec fn is_hex_digit(c: char) -> bool {
    ('0' <= c && c <= '9') || ('a' <= c && c <= 'f')
}

/// Whether a name is the lower-case hexadecimal form of a SHA-256 digest.
pub open spec fn is_content_name(name: Seq<char>) -> bool {
    name.len() == 64 && forall|i: int| 0 <= i < name.len() ==> is_hex_digit(#[trigger] name[i])
}

/// Names the content that has this digest.
pub fn name_digest(digest: &Vec<u8>) -> (r: String)
    ensures
        r@ == hex_text(digest@),
        digest@.len() == 32 ==> is_content_name(r@),
{
    hex_encode(digest)
}

/// Names a content.
pub fn name_content(content: &[u8]) -> (r: String)
    ensures
        r@ == content_name(content@),
        is_content_name(r@),
{
    name_digest(&digest(content))
}

/// Whether a name is long enough to be filed under its first two bytes, which
/// have to be whole characters.
pub open spec fn can_be_filed(name: Seq<char>) -> bool {
    vstd::utf8::is_char_boundary(bytes_of(name), 2)
}

/// The directory of the blob with this name, under the first two bytes of it.
pub open spec fn shelf_bytes(blob_dir: Seq<u8>, name: Seq<char>) -> Seq<u8> {
    joined(blob_dir, bytes_of(name).subrange(0, 2))
}

/// The path of the blob with this name.
pub open spec fn blob_bytes(blob_dir: Seq<u8>, name: Seq<char>) -> Seq<u8> {
    joined(shelf_bytes(blob_dir, name), bytes_of(name))
}

/// The directory of the blob with this name; nothing where the name cannot be
/// filed.
pub fn shelf_path(blob_dir: &Path, name: &str) -> (r: Option<PathBuf>)
    ensures
        match r {
            Some(path) => {
                &&& can_be_filed(name@)
                &&& path_buf_bytes(&path) == shelf_bytes(path_bytes(blob_dir), name@)
                &&& is_content_name(name@) ==> buf_parts(&path) == parts(blob_dir).push(
                    bytes_of(name@).subrange(0, 2),
                )
            },
            None => !can_be_filed(name@),
        },
{
    if name.is_char_boundary(2) {
        proof {
            vstd::utf8::encode_utf8_valid_utf8(name@);
            assert(bytes_of(name@).len() >= 2);
        }
        let (prefix, _) = name.split_at(2);
        proof {
            if is_content_name(name@) {
                lemma_content_name(name@, prefix@);
            }
        }
        Some(join(blob_dir, prefix))
    } else {
        None
    }
}

/// The path of the blob with this name; nothing where the name cannot be filed.
pub fn blob_path(blob_dir: &Path, name: &str) -> (r: Option<PathBuf>)
    ensures
        match r {
            Some(path) => {
                &&& can_be_filed(name@)
                &&& path_buf_bytes(&path) == blob_bytes(path_bytes(blob_dir), name@)
                &&& is_content_name(name@) ==> buf_parts(&path) == parts(blob_dir).push(
                    bytes_of(name@).subrange(0, 2),
                ).push(bytes_of(name@))
            },
            None => !can_be_filed(name@),
        },
{
    match shelf_path(blob_dir, name) {
        Some(shelf) => {
            proof {
                if is_content_name(name@) {
                    lemma_plain_content_name(name@);
                }
            }
            Some(join(as_path(&shelf), name))
        },
        None => None,
    }
}

/// A content name is a plain file name that can be filed.
pub proof fn lemma_plain_content_name(name: Seq<char>)
    requires
        is_content_name(name),
    ensures
        can_be_filed(name),
        vstd::utf8::is_ascii_chars(name),
        components(bytes_of(name)) == seq![bytes_of(name)],
        extends(bytes_of(name)),
{
    let b = bytes_of(name);
    assert forall|i: int| 0 <= i < name.len() implies name[i] != '/' && name[i] != '.' by {
        assert(is_hex_digit(name[i]));
    }
    assert forall|i: int| 0 <= i < name.len() implies '\0' <= #[trigger] name[i] <= '\u{7f}' by {
        assert(is_hex_digit(name[i]));
    }
    vstd::utf8::is_ascii_chars_encode_utf8(name);
    vstd::utf8::encode_utf8_valid_utf8(name);
    assert(b[2] == name[2] as u8);
    vstd::utf8::is_char_boundary_iff_not_is_continuation_byte(b, 2);
    lemma_plain_name(name);
}

/// The first two bytes of a content name are a plain directory name.
proof fn lemma_content_name(name: Seq<char>, prefix: Seq<char>)
    requires
        is_content_name(name),
        bytes_of(prefix) == bytes_of(name).subrange(0, 2),
    ensures
        components(bytes_of(prefix)) == seq![bytes_of(prefix)],
        extends(bytes_of(prefix)),
{
    lemma_plain_content_name(name);
    let two = name.take(2);
    vstd::utf8::is_ascii_chars_encode_utf8(name);
    assert forall|i: int| 0 <= i < two.len() implies '\0' <= #[trigger] two[i] <= '\u{7f}' by {
        assert(two[i] == name[i]);
    }
    vstd::utf8::is_ascii_chars_encode_utf8(two);
    assert(bytes_of(two) =~= bytes_of(prefix));
    assert forall|i: int| 0 <= i < two.len() implies two[i] != '/' by {
        assert(is_hex_digit(name[i]));
    }
    lemma_plain_name(two);
}

/// A name of plain characters can be filed exactly where it has at least two, so every
/// content name can.
pub proof fn law_names_that_can_be_filed(name: Seq<char>)
    requires
        vstd::utf8::is_ascii_chars(name),
    ensures
        can_be_filed(name) <==> name.len() >= 2,
{
    let b = bytes_of(name);
    vstd::utf8::is_ascii_chars_encode_utf8(name);
    vstd::utf8::encode_utf8_valid_utf8(name);
    if name.len() > 2 {
        assert('\0' <= name[2] <= '\u{7f}');
        assert(b[2] == name[2] as u8);
        vstd::utf8::is_char_boundary_iff_not_is_continuation_byte(b, 2);
    } else if name.len() == 2 {
        vstd::utf8::is_char_boundary_start_end_of_seq(b);
    } else if can_be_filed(name) {
        reveal_with_fuel(vstd::utf8::is_char_boundary, 2);
    }
}

/// The blob of a content lies on the shelf of the first two bytes of its name, under the
/// whole name.
pub proof fn law_blobs_lie_on_shelves(blob_dir: Seq<u8>, name: Seq<char>)
    ensures
        blob_bytes(blob_dir, name) == joined(
            joined(blob_dir, bytes_of(name).subrange(0, 2)),
            bytes_of(name),
        ),
        shelf_bytes(blob_dir, name) == joined(blob_dir, bytes_of(name).subrange(0, 2)),
{
}

/// A content name spells out the digest, two digits for each byte, so that different
/// digests have different names.
pub proof fn law_names_spell_out_the_digest(one: Seq<u8>, other: Seq<u8>)
    ensures
        hex_text(one).len() == 2 * one.len(),
        hex_text(one) == hex_text(other) ==> one == other,
{
    if hex_text(one) == hex_text(other) {
        assert(hex_text(one).len() == 2 * one.len() && hex_text(other).len() == 2 * other.len());
        assert forall|i: int| 0 <= i < one.len() implies one[i] == other[i] by {
            assert(hex_text(one)[2 * i] == hex_digit(one[i] as int / 16));
            assert(hex_text(other)[2 * i] == hex_digit(other[i] as int / 16));
            assert(hex_text(one)[2 * i + 1] == hex_digit(one[i] as int % 16));
            assert(hex_text(other)[2 * i + 1] == hex_digit(other[i] as int % 16));
        }
        assert(one =~= other);
    }
}

/// A content goes by its SHA-256 digest and by nothing else, and its name can be filed
/// where the second byte of it ends a character.
pub proof fn law_contents_go_by_their_digest(content: Seq<u8>, name: Seq<char>)
    ensures
        content_name(content) == hex_text(sha256(content)),
        can_be_filed(name) <==> vstd::utf8::is_char_boundary(bytes_of(name), 2),
{
}

} // verus!
