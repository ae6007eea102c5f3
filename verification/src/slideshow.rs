//! Frame selection for the image-slideshow mode.
//!
//! The mode shows every image file of a fixed directory in file-name order.
//! The directory listing and the conversion tool are I/O and live outside
//! the library; this module decides, on the plain file names, which entries
//! are frames (by their extension) and in what order they are shown, and
//! builds the size arguments handed to the conversion tools.

use crate::digits::dec_of;
use crate::digits::push_decimal;
use vstd::prelude::*;
use vstd::seq_lib::to_multiset_insert;

verus! {

/// Position of the last `.` strictly before `end`, or `-1` if none.
pub open spec fn last_dot_before(name: Seq<u8>, end: int) -> int
    decreases end,
{
    if end <= 0 || end > name.len() {
        -1
    } else if name[end - 1] == 0x2eu8 {
        end - 1
    } else {
        last_dot_before(name, end - 1)
    }
}

/// The extension of a file name: the part after the last dot, provided the
/// dot is neither absent nor the leading byte (a leading dot marks a hidden
/// file, not an extension).
pub open spec fn ext_of(name: Seq<u8>) -> Option<Seq<u8>> {
    let d = last_dot_before(name, name.len() as int);
    if d >= 1 {
        Some(name.subrange(d + 1, name.len() as int))
    } else {
        None
    }
}

/// The extension `png`.
pub open spec fn ext_png() -> Seq<u8> {
    seq![0x70u8, 0x6eu8, 0x67u8]
}

/// The extension `jpg`.
pub open spec fn ext_jpg() -> Seq<u8> {
    seq![0x6au8, 0x70u8, 0x67u8]
}

/// The extension `svg`.
pub open spec fn ext_svg() -> Seq<u8> {
    seq![0x73u8, 0x76u8, 0x67u8]
}

/// A name counts as a frame when its extension is one of the supported
/// image formats.
pub open spec fn is_frame_name_spec(name: Seq<u8>) -> bool {
    ||| ext_of(name) == Some(ext_png())
    ||| ext_of(name) == Some(ext_jpg())
    ||| ext_of(name) == Some(ext_svg())
}

/// The frame predicate as a value, for `filter`.
pub open spec fn frame_pred() -> spec_fn(Seq<u8>) -> bool {
    |s: Seq<u8>| is_frame_name_spec(s)
}

/// Decides whether a file name is a slideshow frame.
pub fn is_frame_name(name: &Vec<u8>) -> (r: bool)
    ensures
        r == is_frame_name_spec(name@),
{
    let n: usize = name.len();
    let mut i: usize = n;
    while i > 0 && name[i - 1] != 0x2eu8
        invariant
            i <= n,
            n == name@.len(),
            last_dot_before(name@, n as int) == last_dot_before(name@, i as int),
        decreases i,
    {
        i = i - 1;
    }
    if i >= 2 && n - i == 3 {
        let ghost d = i as int - 1;
        let ghost ext = name@.subrange(i as int, n as int);
        proof {
            assert(last_dot_before(name@, n as int) == d);
            assert(ext_of(name@) == Some(ext));
            assert(ext.len() == 3);
        }
        let b0: u8 = name[i];
        let b1: u8 = name[i + 1];
        let b2: u8 = name[i + 2];
        let r: bool = (b0 == 0x70u8 && b1 == 0x6eu8 && b2 == 0x67u8) || (b0 == 0x6au8 && b1
            == 0x70u8 && b2 == 0x67u8) || (b0 == 0x73u8 && b1 == 0x76u8 && b2 == 0x67u8);
        proof {
            assert(ext[0] == b0 && ext[1] == b1 && ext[2] == b2);
            if r {
                assert(ext =~= ext_png() || ext =~= ext_jpg() || ext =~= ext_svg());
            } else {
                assert(ext != ext_png() && ext != ext_jpg() && ext != ext_svg());
            }
        }
        r
    } else {
        proof {
            if i == 0 {
                assert(last_dot_before(name@, 0) == -1);
                assert(ext_of(name@) is None);
            } else if i == 1 {
                assert(last_dot_before(name@, n as int) == 0);
                assert(ext_of(name@) is None);
            } else {
                let ext = name@.subrange(i as int, n as int);
                assert(ext_of(name@) == Some(ext));
                assert(ext.len() != 3);
            }
        }
        false
    }
}

/// Byte-wise lexicographic order on names; the order the frames are shown
/// in.
pub open spec fn lex_le(a: Seq<u8>, b: Seq<u8>) -> bool
    decreases a.len(),
{
    if a.len() == 0 {
        true
    } else if b.len() == 0 {
        false
    } else if a[0] < b[0] {
        true
    } else if a[0] > b[0] {
        false
    } else {
        lex_le(a.drop_first(), b.drop_first())
    }
}

/// The lexicographic order is total.
pub proof fn lemma_lex_total(a: Seq<u8>, b: Seq<u8>)
    ensures
        lex_le(a, b) || lex_le(b, a),
    decreases a.len(),
{
    if a.len() > 0 && b.len() > 0 && a[0] == b[0] {
        lemma_lex_total(a.drop_first(), b.drop_first());
    }
}

/// The lexicographic order is transitive.
pub proof fn lemma_lex_trans(a: Seq<u8>, b: Seq<u8>, c: Seq<u8>)
    requires
        lex_le(a, b),
        lex_le(b, c),
    ensures
        lex_le(a, c),
    decreases a.len(),
{
    if a.len() > 0 && b.len() > 0 && c.len() > 0 && a[0] == b[0] && b[0] == c[0] {
        lemma_lex_trans(a.drop_first(), b.drop_first(), c.drop_first());
    }
}

/// Compares two names in the lexicographic order.
fn lex_le_exec(a: &Vec<u8>, b: &Vec<u8>) -> (r: bool)
    ensures
        r == lex_le(a@, b@),
{
    let mut i: usize = 0;
    proof {
        assert(a@.skip(0) =~= a@);
        assert(b@.skip(0) =~= b@);
    }
    while i < a.len() && i < b.len() && a[i] == b[i]
        invariant
            i <= a@.len(),
            i <= b@.len(),
            lex_le(a@, b@) == lex_le(a@.skip(i as int), b@.skip(i as int)),
        decreases a@.len() - i,
    {
        proof {
            assert(a@.skip(i as int).drop_first() =~= a@.skip(i as int + 1));
            assert(b@.skip(i as int).drop_first() =~= b@.skip(i as int + 1));
        }
        i = i + 1;
    }
    if i == a.len() {
        proof {
            assert(a@.skip(i as int).len() == 0);
        }
        true
    } else if i == b.len() {
        proof {
            assert(b@.skip(i as int).len() == 0);
            assert(a@.skip(i as int).len() > 0);
        }
        false
    } else {
        a[i] < b[i]
    }
}

/// The views of a sequence of byte vectors.
pub open spec fn byte_views(s: Seq<Vec<u8>>) -> Seq<Seq<u8>> {
    Seq::new(s.len(), |i: int| s[i]@)
}

/// Names in non-decreasing lexicographic order.
pub open spec fn sorted_names(s: Seq<Seq<u8>>) -> bool {
    forall|i: int, j: int| 0 <= i < j < s.len() ==> #[trigger] lex_le(s[i], s[j])
}

/// The number of leading entries of `out` that are at most `name`.
fn find_pos(out: &Vec<Vec<u8>>, name: &Vec<u8>) -> (pos: usize)
    ensures
        pos <= out@.len(),
        forall|k: int| 0 <= k < pos ==> lex_le(#[trigger] out@[k]@, name@),
        pos < out@.len() ==> !lex_le(out@[pos as int]@, name@),
{
    let mut pos: usize = 0;
    while pos < out.len()
        invariant
            pos <= out@.len(),
            forall|k: int| 0 <= k < pos ==> lex_le(#[trigger] out@[k]@, name@),
        decreases out@.len() - pos,
    {
        if !lex_le_exec(&out[pos], name) {
            return pos;
        }
        pos = pos + 1;
    }
    pos
}

/// Inserts `name` into the sorted list `out`, keeping it sorted.
fn insert_sorted(out: &mut Vec<Vec<u8>>, name: Vec<u8>)
    requires
        sorted_names(byte_views(old(out)@)),
    ensures
        sorted_names(byte_views(final(out)@)),
        byte_views(final(out)@).to_multiset() == byte_views(old(out)@).to_multiset().insert(
            name@,
        ),
        final(out)@.len() == old(out)@.len() + 1,
        forall|i: int|
            0 <= i < final(out)@.len() ==> (#[trigger] final(out)@[i]@ == name@ || exists|j: int|
                0 <= j < old(out)@.len() && final(out)@[i]@ == old(out)@[j]@),
{
    let ghost before = byte_views(out@);
    let pos = find_pos(out, &name);
    out.insert(pos, name);
    proof {
        let after = byte_views(out@);
        assert(after =~= before.insert(pos as int, name@));
        to_multiset_insert(before, pos as int, name@);
        assert forall|i: int, j: int| 0 <= i < j < after.len() implies #[trigger] lex_le(
            after[i],
            after[j],
        ) by {
            if j < pos {
                assert(lex_le(before[i], before[j]));
            } else if i > pos {
                assert(lex_le(before[i - 1], before[j - 1]));
            } else if i == pos && j > pos {
                lemma_lex_total(before[pos as int], name@);
                if (pos as int) + 1 <= j - 1 {
                    assert(lex_le(before[pos as int], before[j - 1]));
                    lemma_lex_trans(name@, before[pos as int], before[j - 1]);
                } else {
                    assert(after[j] == before[pos as int]);
                }
            } else if i < pos && j == pos {
                assert(lex_le(before[i], name@));
            } else {
                // i < pos < j: before[i] <= name <= before[j - 1]
                assert(lex_le(before[i], name@));
                lemma_lex_total(before[pos as int], name@);
                if (pos as int) <= j - 1 {
                    if (pos as int) < j - 1 {
                        assert(lex_le(before[pos as int], before[j - 1]));
                        lemma_lex_trans(name@, before[pos as int], before[j - 1]);
                    }
                    lemma_lex_trans(before[i], name@, after[j]);
                }
            }
        }
        assert forall|i: int| 0 <= i < out@.len() implies (#[trigger] out@[i]@ == name@ || exists|
            j: int,
        | 0 <= j < before.len() && out@[i]@ == before[j]) by {
            if i < pos {
                assert(out@[i]@ == before[i]);
            } else if i > pos {
                assert(out@[i]@ == before[i - 1]);
            }
        }
    }
}

/// Keeps the names that are slideshow frames and returns them sorted in the
/// byte-wise lexicographic order (the order the frames are shown in).
pub fn select_frames(names: &Vec<Vec<u8>>) -> (frames: Vec<Vec<u8>>)
    ensures
        sorted_names(byte_views(frames@)),
        byte_views(frames@).to_multiset() == byte_views(names@).filter(frame_pred()).to_multiset(),
        forall|i: int| 0 <= i < frames@.len() ==> is_frame_name_spec(#[trigger] frames@[i]@),
        frames@.len() == 0 <==> (forall|i: int|
            0 <= i < names@.len() ==> !is_frame_name_spec(#[trigger] names@[i]@)),
{
    let ghost all = byte_views(names@);
    let mut frames: Vec<Vec<u8>> = Vec::new();
    let mut i: usize = 0;
    proof {
        reveal(Seq::filter);
        assert(byte_views(frames@) =~= Seq::<Seq<u8>>::empty());
        assert(all.take(0) =~= Seq::<Seq<u8>>::empty());
        assert(Seq::<Seq<u8>>::empty().filter(frame_pred()) == Seq::<Seq<u8>>::empty());
    }
    while i < names.len()
        invariant
            i <= names@.len(),
            all == byte_views(names@),
            sorted_names(byte_views(frames@)),
            byte_views(frames@).to_multiset() == all.take(i as int).filter(
                frame_pred(),
            ).to_multiset(),
            forall|k: int| 0 <= k < frames@.len() ==> is_frame_name_spec(#[trigger] frames@[k]@),
            frames@.len() == 0 <==> (forall|k: int|
                0 <= k < i ==> !is_frame_name_spec(#[trigger] names@[k]@)),
        decreases names@.len() - i,
    {
        let ghost taken = all.take(i as int);
        let keep = is_frame_name(&names[i]);
        proof {
            assert(all.take(i as int + 1) =~= taken.push(names@[i as int]@));
            taken.lemma_filter_push(names@[i as int]@, frame_pred());
            assert(frame_pred()(names@[i as int]@) == is_frame_name_spec(names@[i as int]@));
        }
        if keep {
            let name = names[i].clone();
            proof {
                assert(name@ =~= names@[i as int]@);
            }
            insert_sorted(&mut frames, name);
            proof {
                vstd::seq_lib::to_multiset_build(taken.filter(frame_pred()), names@[i as int]@);
            }
        }
        i = i + 1;
    }
    proof {
        assert(all.take(i as int) =~= all);
    }
    frames
}

/// Bytes of the `--size=<width>x<height>` argument handed to the block-art
/// converter.
pub open spec fn size_arg_bytes(width: u16, height: u16) -> Seq<u8> {
    seq![0x2du8, 0x2du8, 0x73u8, 0x69u8, 0x7au8, 0x65u8, 0x3du8] + dec_of(width as int) + seq![
        0x78u8,
    ] + dec_of(height as int)
}

/// Builds the `--size=<width>x<height>` converter argument.
pub fn chafa_size_arg(width: u16, height: u16) -> (r: Vec<u8>)
    ensures
        r@ == size_arg_bytes(width, height),
{
    let mut r: Vec<u8> = Vec::new();
    r.push(0x2d);
    r.push(0x2d);
    r.push(0x73);
    r.push(0x69);
    r.push(0x7a);
    r.push(0x65);
    r.push(0x3d);
    push_decimal(&mut r, width);
    r.push(0x78);
    push_decimal(&mut r, height);
    proof {
        assert(r@ =~= size_arg_bytes(width, height));
    }
    r
}

/// Bytes of the `-resize <width>x<height>!` argument handed to the raster
/// converter.
pub open spec fn resize_arg_bytes(width: u16, height: u16) -> Seq<u8> {
    seq![0x2du8, 0x72u8, 0x65u8, 0x73u8, 0x69u8, 0x7au8, 0x65u8, 0x20u8] + dec_of(width as int)
        + seq![0x78u8] + dec_of(height as int) + seq![0x21u8]
}

/// Builds the `-resize <width>x<height>!` converter argument.
pub fn magick_resize_arg(width: u16, height: u16) -> (r: Vec<u8>)
    ensures
        r@ == resize_arg_bytes(width, height),
{
    let mut r: Vec<u8> = Vec::new();
    r.push(0x2d);
    r.push(0x72);
    r.push(0x65);
    r.push(0x73);
    r.push(0x69);
    r.push(0x7a);
    r.push(0x65);
    r.push(0x20);
    push_decimal(&mut r, width);
    r.push(0x78);
    push_decimal(&mut r, height);
    r.push(0x21);
    proof {
        assert(r@ =~= resize_arg_bytes(width, height));
    }
    r
}

} // verus!
