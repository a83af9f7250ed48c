//! Paths, seen as the bytes that they are written with and as the components
//! that these bytes name.  All of it is about paths as they are on Unix.
use std::path::{Path, PathBuf};

use vstd::prelude::*;
use vstd::utf8::{decode_utf8, valid_utf8};

verus! {

/// A borrowed path of the operating system.
#[verifier::external_type_specification]
#[verifier::external_body]
pub struct ExPath(std::path::Path);

/// An owned path of the operating system.
#[verifier::external_type_specification]
#[verifier::external_body]
pub struct ExPathBuf(std::path::PathBuf);

/// The bytes that a path holds.
pub uninterp spec fn path_bytes(p: &std::path::Path) -> Seq<u8>;

/// The bytes that an owned path holds.
pub uninterp spec fn path_buf_bytes(p: &std::path::PathBuf) -> Seq<u8>;

/// What `Path::join` writes for a path and the path adjoined to it.
pub uninterp spec fn joined(dir: Seq<u8>, rel: Seq<u8>) -> Seq<u8>;

/// What `Path::strip_prefix` leaves of a path behind a prefix of it.
pub uninterp spec fn stripped(path: Seq<u8>, base: Seq<u8>) -> Seq<u8>;

/// What `Path::to_string_lossy` makes of the bytes of a path.
pub uninterp spec fn lossy(path: Seq<u8>) -> Seq<char>;

/// The bytes of a text.
pub open spec fn bytes_of(s: Seq<char>) -> Seq<u8> {
    vstd::utf8::encode_utf8(s)
}

/// The component that names the root directory.
pub open spec fn root() -> Seq<u8> {
    seq![0x2Fu8]
}

/// The component that names the current directory.
pub open spec fn current() -> Seq<u8> {
    seq![0x2Eu8]
}

/// The component that names the directory above.
pub open spec fn above() -> Seq<u8> {
    seq![0x2Eu8, 0x2Eu8]
}

/// What stands between the slashes.
pub open spec fn segments(path: Seq<u8>) -> Seq<Seq<u8>>
    decreases path.len(),
{
    if path.len() == 0 {
        seq![Seq::empty()]
    } else {
        let before = segments(path.drop_last());
        if path.last() == 0x2F {
            before.push(Seq::empty())
        } else {
            before.drop_last().push(before.last().push(path.last()))
        }
    }
}

/// The components of a path: the root where it begins with a slash, the current
/// directory where it begins with that, then every name.  Repeated slashes, a
/// slash at the end and a current directory further on name nothing.
pub open spec fn components(path: Seq<u8>) -> Seq<Seq<u8>> {
    let names = segments(path).filter(|s: Seq<u8>| s.len() > 0 && s != current());
    if path.len() > 0 && path[0] == 0x2F {
        seq![root()] + names
    } else if segments(path)[0] == current() {
        seq![current()] + names
    } else {
        names
    }
}

/// The components of a borrowed path.
pub open spec fn parts(p: &Path) -> Seq<Seq<u8>> {
    components(path_bytes(p))
}

/// The components of an owned path.
pub open spec fn buf_parts(p: &PathBuf) -> Seq<Seq<u8>> {
    components(path_buf_bytes(p))
}

/// Whether adjoining `rel` to a path adds its components to those of the path.
pub open spec fn extends(rel: Seq<u8>) -> bool {
    components(rel).len() > 0 && components(rel)[0] != root() && components(rel)[0] != current()
}

/// Whether a path leads to `dir` or to something in it.
pub open spec fn is_inside(path: Seq<u8>, dir: Seq<u8>) -> bool {
    components(dir).is_prefix_of(components(path))
}

/// No segment holds a slash.
proof fn lemma_segments_have_no_slash(path: Seq<u8>)
    ensures
        segments(path).len() > 0,
        forall|i: int| 0 <= i < segments(path).len() ==> !(#[trigger] segments(path)[i]).contains(0x2F),
    decreases path.len(),
{
    if path.len() > 0 {
        let before = segments(path.drop_last());
        lemma_segments_have_no_slash(path.drop_last());
        if path.last() != 0x2F {
            let last = before.last();
            assert(!before[before.len() - 1].contains(0x2F));
            assert forall|j: int| 0 <= j < last.push(path.last()).len() implies last.push(
                path.last(),
            )[j] != 0x2F by {
                if j < last.len() {
                    assert(last.contains(last[j]));
                }
            }
            assert(!last.push(path.last()).contains(0x2F));
        }
    }
}

/// Filtering keeps what holds of every segment.
proof fn lemma_kept_have_no_slash(list: Seq<Seq<u8>>, keep: spec_fn(Seq<u8>) -> bool)
    requires
        forall|i: int| 0 <= i < list.len() ==> !(#[trigger] list[i]).contains(0x2F),
    ensures
        forall|i: int|
            0 <= i < list.filter(keep).len() ==> !(#[trigger] list.filter(keep)[i]).contains(0x2F),
    decreases list.len(),
{
    reveal(Seq::filter);
    if list.len() > 0 {
        lemma_kept_have_no_slash(list.drop_last(), keep);
        assert(!list[list.len() - 1].contains(0x2F));
        let before = list.drop_last().filter(keep);
        assert forall|i: int| 0 <= i < list.filter(keep).len() implies !(#[trigger] list.filter(
            keep,
        )[i]).contains(0x2F) by {
            if i < before.len() {
                assert(list.filter(keep)[i] == before[i]);
            }
        }
    }
}

/// The root is never anything but the first component, and is that exactly where
/// the path begins with a slash.
pub proof fn lemma_root_comes_first(path: Seq<u8>)
    ensures
        forall|i: int| 0 < i < components(path).len() ==> #[trigger] components(path)[i] != root(),
        components(path).len() > 0 && components(path)[0] == root() <==> path.len() > 0 && path[0]
            == 0x2F,
{
    let keep = |s: Seq<u8>| s.len() > 0 && s != current();
    lemma_segments_have_no_slash(path);
    lemma_kept_have_no_slash(segments(path), keep);
    let names = segments(path).filter(keep);
    assert(root()[0] == 0x2F);
    assert(root().contains(0x2F));
    assert forall|i: int| 0 <= i < names.len() implies #[trigger] names[i] != root() by {
        assert(!names[i].contains(0x2F));
    }
    assert(current()[0] == 0x2E);
}

/// Bytes without a slash are one segment.
pub proof fn lemma_one_segment(b: Seq<u8>)
    requires
        !b.contains(0x2F),
    ensures
        segments(b) == seq![b],
    decreases b.len(),
{
    if b.len() > 0 {
        let front = b.drop_last();
        assert forall|i: int| 0 <= i < front.len() implies front[i] != 0x2F by {
            assert(front[i] == b[i]);
            assert(b.contains(b[i]));
        }
        assert(!front.contains(0x2F));
        lemma_one_segment(front);
        assert(b.contains(b.last()));
        assert(front.push(b.last()) =~= b);
        assert(segments(b) =~= seq![b]);
    } else {
        assert(b =~= Seq::<u8>::empty());
        assert(segments(b) =~= seq![b]);
    }
}

/// A name without a slash, other than that of the current directory, is its own
/// single component.
pub proof fn lemma_plain_name(name: Seq<char>)
    requires
        vstd::utf8::is_ascii_chars(name),
        name.len() > 0,
        !name.contains('/'),
        name != seq!['.'],
    ensures
        components(bytes_of(name)) == seq![bytes_of(name)],
        extends(bytes_of(name)),
{
    let b = bytes_of(name);
    vstd::utf8::is_ascii_chars_encode_utf8(name);
    assert(b.len() == name.len());
    assert forall|i: int| 0 <= i < b.len() implies b[i] != 0x2F by {
        assert(b[i] == name[i] as u8);
        assert(name.contains(name[i]));
        vstd::utf8::char_u32_cast(name[i], name[i] as u32);
    }
    lemma_one_segment(b);
    if b == current() {
        assert(b[0] == name[0] as u8);
        vstd::utf8::char_u32_cast(name[0], name[0] as u32);
        assert(name =~= seq!['.']);
    }
    assert(b[0] != 0x2F);
    let keep = |s: Seq<u8>| s.len() > 0 && s != current();
    reveal(Seq::filter);
    assert(seq![b].drop_last() =~= Seq::<Seq<u8>>::empty());
    assert(seq![b].filter(keep) =~= seq![b]);
    assert(b != root()) by {
        assert(root()[0] == 0x2F);
    }
}

/// What comes behind the last slash is the last segment.
proof fn lemma_last_segment(head: Seq<u8>, tail: Seq<u8>)
    requires
        !tail.contains(0x2F),
    ensures
        segments(head.push(0x2F) + tail) == segments(head).push(tail),
    decreases tail.len(),
{
    let path = head.push(0x2F) + tail;
    if tail.len() == 0 {
        assert(path =~= head.push(0x2F));
        assert(path.drop_last() =~= head);
        assert(tail =~= Seq::<u8>::empty());
    } else {
        let front = tail.drop_last();
        assert forall|i: int| 0 <= i < front.len() implies front[i] != 0x2F by {
            assert(front[i] == tail[i]);
            assert(tail.contains(tail[i]));
        }
        assert(!front.contains(0x2F));
        assert(tail.contains(tail.last()));
        lemma_last_segment(head, front);
        assert(path.drop_last() =~= head.push(0x2F) + front);
        assert(segments(head).push(front).drop_last() =~= segments(head));
        assert(front.push(tail.last()) =~= tail);
    }
}

/// A path is UTF-8 exactly where each of its segments is.
proof fn lemma_utf8_segments(path: Seq<u8>)
    ensures
        valid_utf8(path) <==> forall|i: int|
            0 <= i < segments(path).len() ==> valid_utf8(#[trigger] segments(path)[i]),
    decreases path.len(),
{
    if path.contains(0x2F) {
        path.index_of_last_ensures(0x2F);
        let at = path.index_of_last(0x2F)->0;
        let head = path.take(at);
        let tail = path.skip(at + 1);
        assert forall|i: int| 0 <= i < tail.len() implies tail[i] != 0x2F by {
            assert(tail[i] == path[at + 1 + i]);
        }
        assert(!tail.contains(0x2F));
        assert(path =~= head.push(0x2F) + tail);
        lemma_last_segment(head, tail);
        lemma_utf8_segments(head);
        lemma_utf8_around_slash(head, tail);
        let all = segments(path);
        if forall|i: int| 0 <= i < all.len() ==> valid_utf8(#[trigger] all[i]) {
            assert forall|i: int| 0 <= i < segments(head).len() implies valid_utf8(
                #[trigger] segments(head)[i],
            ) by {
                assert(all[i] == segments(head)[i]);
            }
            assert(all[all.len() - 1] == tail);
        }
    } else {
        lemma_one_segment(path);
        if forall|i: int|
            0 <= i < segments(path).len() ==> valid_utf8(#[trigger] segments(path)[i]) {
            assert(valid_utf8(segments(path)[0]));
        }
    }
}

/// Bytes with a slash in them are UTF-8 exactly where those on either side are.
proof fn lemma_utf8_around_slash(head: Seq<u8>, tail: Seq<u8>)
    ensures
        valid_utf8(head.push(0x2F) + tail) <==> valid_utf8(head) && valid_utf8(tail),
{
    let path = head.push(0x2F) + tail;
    let rest = root() + tail;
    reveal_with_fuel(valid_utf8, 2);
    assert(vstd::utf8::pop_first_scalar(rest) =~= tail);
    assert(path =~= head + rest);
    if valid_utf8(path) {
        let at = head.len() as int;
        assert(path[at] == 0x2F);
        vstd::utf8::is_char_boundary_iff_not_is_continuation_byte(path, at);
        vstd::utf8::valid_utf8_split(path, at);
        assert(path.subrange(0, at) =~= head);
        assert(path.subrange(at, path.len() as int) =~= rest);
    }
    if valid_utf8(head) && valid_utf8(tail) {
        vstd::utf8::valid_utf8_concat(head, rest);
    }
}

/// What the segments and the components of a path have to do with each other: a
/// component is the root, the current directory or a segment, and a segment that is
/// not empty is the current directory or a component.
proof fn lemma_segments_and_components(path: Seq<u8>)
    ensures
        forall|i: int|
            0 <= i < components(path).len() ==> {
                ||| #[trigger] components(path)[i] == root()
                ||| components(path)[i] == current()
                ||| segments(path).contains(components(path)[i])
            },
        forall|i: int|
            0 <= i < segments(path).len() ==> {
                ||| (#[trigger] segments(path)[i]).len() == 0
                ||| segments(path)[i] == current()
                ||| components(path).contains(segments(path)[i])
            },
{
    let keep = |s: Seq<u8>| s.len() > 0 && s != current();
    let names = segments(path).filter(keep);
    let all = components(path);
    let shift = all.len() - names.len();
    assert forall|i: int| 0 <= i < all.len() implies {
        ||| #[trigger] all[i] == root()
        ||| all[i] == current()
        ||| segments(path).contains(all[i])
    } by {
        if i >= shift {
            assert(names.contains(names[i - shift]));
            segments(path).lemma_filter_contains_rev(keep, names[i - shift]);
        }
    }
    assert forall|i: int| 0 <= i < segments(path).len() implies {
        ||| (#[trigger] segments(path)[i]).len() == 0
        ||| segments(path)[i] == current()
        ||| all.contains(segments(path)[i])
    } by {
        if keep(segments(path)[i]) {
            segments(path).lemma_filter_contains(keep, i);
            let j = choose|j: int| 0 <= j < names.len() && names[j] == segments(path)[i];
            assert(all[j + shift] == names[j]);
        }
    }
}

/// A path all of whose components are components of a path that is UTF-8 is UTF-8.
pub proof fn lemma_utf8_components(path: Seq<u8>, whole: Seq<u8>)
    requires
        valid_utf8(whole),
        forall|i: int|
            0 <= i < components(path).len() ==> components(whole).contains(
                #[trigger] components(path)[i],
            ),
    ensures
        valid_utf8(path),
{
    lemma_utf8_segments(whole);
    lemma_utf8_segments(path);
    lemma_segments_and_components(whole);
    lemma_segments_and_components(path);
    reveal_with_fuel(valid_utf8, 2);
    assert(vstd::utf8::pop_first_scalar(root()) =~= Seq::<u8>::empty());
    assert(vstd::utf8::pop_first_scalar(current()) =~= Seq::<u8>::empty());
    assert forall|i: int| 0 <= i < segments(path).len() implies valid_utf8(
        #[trigger] segments(path)[i],
    ) by {
        let segment = segments(path)[i];
        if segment.len() > 0 && segment != current() {
            let j = choose|j: int|
                0 <= j < components(path).len() && components(path)[j] == segment;
            assert(components(whole).contains(components(path)[j]));
            let k = choose|k: int|
                0 <= k < components(whole).len() && components(whole)[k] == segment;
            if components(whole)[k] != root() {
                let m = choose|m: int|
                    0 <= m < segments(whole).len() && segments(whole)[m] == segment;
                assert(valid_utf8(segments(whole)[m]));
            }
        }
    }
}

/// A path that begins with something else than a slash begins with a segment.
proof fn lemma_first_segment(path: Seq<u8>)
    requires
        path.len() > 0,
        path[0] != 0x2F,
    ensures
        segments(path).len() > 0,
        segments(path)[0].len() > 0,
    decreases path.len(),
{
    if path.len() == 1 {
        lemma_one_segment(path);
    } else {
        lemma_first_segment(path.drop_last());
    }
}

/// Only the empty path has no components.
pub proof fn lemma_no_components(path: Seq<u8>)
    ensures
        components(path).len() == 0 <==> path.len() == 0,
{
    if path.len() > 0 {
        if path[0] != 0x2F {
            lemma_first_segment(path);
            lemma_segments_and_components(path);
            assert(segments(path)[0].len() > 0);
        }
    } else {
        let keep = |s: Seq<u8>| s.len() > 0 && s != current();
        lemma_one_segment(path);
        reveal_with_fuel(Seq::filter, 2);
        assert(segments(path).drop_last() =~= Seq::<Seq<u8>>::empty());
        assert(segments(path).filter(keep) =~= Seq::<Seq<u8>>::empty());
        assert(current().len() == 1);
    }
}

/// A text that begins with a slash has bytes that do.
pub proof fn lemma_leading_slash(text: Seq<char>)
    ensures
        text.len() > 0 && text[0] == '/' ==> bytes_of(text).len() > 0 && bytes_of(text)[0] == 0x2F,
{
    if text.len() > 0 && text[0] == '/' {
        let slash = seq!['/'];
        assert(vstd::utf8::is_ascii_chars(slash));
        vstd::utf8::is_ascii_chars_encode_utf8(slash);
        reveal_with_fuel(vstd::utf8::encode_utf8, 2);
        assert(slash.drop_first() =~= Seq::<char>::empty());
        assert(bytes_of(slash) =~= vstd::utf8::encode_scalar('/' as u32));
        assert(bytes_of(slash)[0] == slash[0] as u8);
        assert(bytes_of(text)[0] == bytes_of(slash)[0]);
    }
}

/// `PathBuf::as_path`: the same path, borrowed.
#[verifier::external_body]
pub(crate) fn as_path(p: &PathBuf) -> (r: &Path)
    ensures
        path_bytes(r) == path_buf_bytes(p),
{
    p.as_path()
}

/// `Path::to_path_buf`: the same path, owned.
#[verifier::external_body]
pub(crate) fn to_path_buf(p: &Path) -> (r: PathBuf)
    ensures
        path_buf_bytes(&r) == path_bytes(p),
{
    p.to_path_buf()
}

/// `Path::join`: the path with `rel` adjoined to it.  An absolute `rel` takes
/// the place of the path; a relative one adds its components.
#[verifier::external_body]
pub(crate) fn join(p: &Path, rel: &str) -> (r: PathBuf)
    ensures
        path_buf_bytes(&r) == joined(path_bytes(p), bytes_of(rel@)),
        rel@.len() > 0 && rel@[0] == '/' ==> path_buf_bytes(&r) == bytes_of(rel@),
        extends(bytes_of(rel@)) ==> buf_parts(&r) == parts(p) + components(bytes_of(rel@)),
{
    p.join(rel)
}

/// `Path::starts_with`: whether the components of `base` are the first ones of
/// the path.
#[verifier::external_body]
pub(crate) fn starts_with(p: &Path, base: &Path) -> (r: bool)
    ensures
        r == is_inside(path_bytes(p), path_bytes(base)),
{
    p.starts_with(base)
}

/// `Path::strip_prefix`: what of the path comes behind `base`, where the path
/// begins with it; joined onto `base` it yields the path.  How it is written is not
/// said beyond that.
#[verifier::external_body]
pub(crate) fn strip_prefix<'a>(p: &'a Path, base: &Path) -> (r: Option<&'a Path>)
    ensures
        match r {
            Some(rest) => {
                &&& is_inside(path_bytes(p), path_bytes(base))
                &&& path_bytes(rest) == stripped(path_bytes(p), path_bytes(base))
                &&& parts(rest) == parts(p).skip(parts(base).len() as int)
                &&& components(joined(path_bytes(base), path_bytes(rest))) == parts(p)
            },
            None => !is_inside(path_bytes(p), path_bytes(base)),
        },
{
    p.strip_prefix(base).ok()
}

/// `Path::to_string_lossy`: the path as text, which is what its bytes encode
/// where they are UTF-8.
#[verifier::external_body]
pub(crate) fn to_string_lossy(p: &Path) -> (r: String)
    ensures
        r@ == lossy(path_bytes(p)),
        valid_utf8(path_bytes(p)) ==> r@ == decode_utf8(path_bytes(p)),
{
    p.to_string_lossy().into_owned()
}

/// `Path::has_root`: whether the path begins with the root, which is a slash.
#[verifier::external_body]
pub(crate) fn has_root(p: &Path) -> (r: bool)
    ensures
        r == (path_bytes(p).len() > 0 && path_bytes(p)[0] == 0x2F),
{
    p.has_root()
}

/// `Path::parent`: the path without its last component; nothing for a path that
/// ends in the root, or that has no component.
#[verifier::external_body]
pub(crate) fn parent(p: &Path) -> (r: Option<&Path>)
    ensures
        match r {
            Some(up) => parts(p).len() > 0 && parts(p).last() != root() && parts(up) == parts(
                p,
            ).drop_last(),
            None => parts(p).len() == 0 || parts(p).last() == root(),
        },
{
    p.parent()
}

} // verus!
