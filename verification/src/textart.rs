//! Decoding of the raster converter's per-pixel text output into ASCII art.
//!
//! The converter emits one text line per pixel, of the shape
//! `x,y: (...) #RRGGBB ...`. Every line whose `": "` marker is found
//! contributes one character: a space for a pure black pixel, `#` for any
//! other. A line whose tail marks the first column of a pixel row (it ends
//! with `,0: ` or with `,0: #000000` or `,0: #FFFFFF`) additionally starts a
//! new output row. The thresholding to pure black deliberately discards
//! grayscale information.

use crate::slideshow::byte_views;
use vstd::prelude::*;

verus! {

/// ASCII whitespace, as trimmed from the color value.
pub open spec fn is_space(b: u8) -> bool {
    b == 0x20u8 || b == 0x09u8 || b == 0x0au8 || b == 0x0bu8 || b == 0x0cu8 || b == 0x0du8
}

/// The color value of a pure black pixel: `#000000`.
pub open spec fn black() -> Seq<u8> {
    seq![0x23u8, 0x30u8, 0x30u8, 0x30u8, 0x30u8, 0x30u8, 0x30u8]
}

/// First position at or after `i` where `": "` occurs, or `-1`.
pub open spec fn first_cs_from(line: Seq<u8>, i: int) -> int
    decreases line.len() - i,
{
    if i < 0 || i + 1 >= line.len() {
        -1
    } else if line[i] == 0x3au8 && line[i + 1] == 0x20u8 {
        i
    } else {
        first_cs_from(line, i + 1)
    }
}

/// `s` without its leading whitespace.
pub open spec fn trim_front(s: Seq<u8>) -> Seq<u8>
    decreases s.len(),
{
    if s.len() > 0 && is_space(s[0]) {
        trim_front(s.drop_first())
    } else {
        s
    }
}

/// `s` without its trailing whitespace.
pub open spec fn trim_back(s: Seq<u8>) -> Seq<u8>
    decreases s.len(),
{
    if s.len() > 0 && is_space(s.last()) {
        trim_back(s.drop_last())
    } else {
        s
    }
}

/// `s` without leading and trailing whitespace.
pub open spec fn trimmed(s: Seq<u8>) -> Seq<u8> {
    trim_back(trim_front(s))
}

/// The character one line contributes: a space for a black pixel, `#` for
/// any other pixel, nothing for a line without the `": "` marker.
pub open spec fn line_cell(line: Seq<u8>) -> Seq<u8> {
    let i = first_cs_from(line, 0);
    if i >= 0 {
        if trimmed(line.skip(i + 2)) == black() {
            seq![0x20u8]
        } else {
            seq![0x23u8]
        }
    } else {
        Seq::empty()
    }
}

/// Whether `line` ends with `suffix`.
pub open spec fn ends_with(line: Seq<u8>, suffix: Seq<u8>) -> bool {
    line.len() >= suffix.len() && line.skip(line.len() - suffix.len()) == suffix
}

/// The tail `,0: ` marking the first column of a pixel row.
pub open spec fn row_mark_bare() -> Seq<u8> {
    seq![0x2cu8, 0x30u8, 0x3au8, 0x20u8]
}

/// The tail `,0: #000000`.
pub open spec fn row_mark_black() -> Seq<u8> {
    row_mark_bare() + black()
}

/// The tail `,0: #FFFFFF`.
pub open spec fn row_mark_white() -> Seq<u8> {
    seq![
        0x2cu8,
        0x30u8,
        0x3au8,
        0x20u8,
        0x23u8,
        0x46u8,
        0x46u8,
        0x46u8,
        0x46u8,
        0x46u8,
        0x46u8,
    ]
}

/// Whether this pixel line starts a new output row.
pub open spec fn line_breaks_row(line: Seq<u8>) -> bool {
    ||| ends_with(line, row_mark_bare())
    ||| ends_with(line, row_mark_black())
    ||| ends_with(line, row_mark_white())
}

/// The bytes one line contributes to the art: its cell, then a newline when
/// it starts a new row.
pub open spec fn line_art(line: Seq<u8>) -> Seq<u8> {
    line_cell(line) + if line_breaks_row(line) {
        seq![0x0au8]
    } else {
        Seq::<u8>::empty()
    }
}

/// First position at or after `i` holding a newline byte, or `-1`.
pub open spec fn first_nl_from(txt: Seq<u8>, i: int) -> int
    decreases txt.len() - i,
{
    if i < 0 || i >= txt.len() {
        -1
    } else if txt[i] == 0x0au8 {
        i
    } else {
        first_nl_from(txt, i + 1)
    }
}

/// `line` without one trailing carriage return.
pub open spec fn strip_cr(line: Seq<u8>) -> Seq<u8> {
    if line.len() > 0 && line.last() == 0x0du8 {
        line.drop_last()
    } else {
        line
    }
}

/// The lines of `txt`: split at newline bytes, one trailing carriage return
/// dropped per line, no final empty line.
pub open spec fn split_lines(txt: Seq<u8>) -> Seq<Seq<u8>>
    decreases txt.len(),
{
    if txt.len() == 0 {
        Seq::empty()
    } else {
        let i = first_nl_from(txt, 0);
        if i < 0 || i >= txt.len() {
            seq![strip_cr(txt)]
        } else {
            seq![strip_cr(txt.take(i))] + split_lines(txt.skip(i + 1))
        }
    }
}

/// The art contributed by the lines from index `k` on.
pub open spec fn art_from(lines: Seq<Seq<u8>>, k: int) -> Seq<u8>
    decreases lines.len() - k,
{
    if k < 0 || k >= lines.len() {
        Seq::empty()
    } else {
        line_art(lines[k]) + art_from(lines, k + 1)
    }
}

/// The ASCII art denoted by the converter's whole text output.
pub open spec fn ascii_art(txt: Seq<u8>) -> Seq<u8> {
    art_from(split_lines(txt), 0)
}

proof fn lemma_first_nl_at(s: Seq<u8>, i: int, m: int)
    requires
        0 <= i <= m < s.len(),
        s[m] == 0x0au8,
        forall|k: int| 0 <= k < m ==> s[k] != 0x0au8,
    ensures
        first_nl_from(s, i) == m,
    decreases m - i,
{
    if i < m {
        lemma_first_nl_at(s, i + 1, m);
    }
}

proof fn lemma_first_nl_none(s: Seq<u8>, i: int)
    requires
        0 <= i,
        forall|k: int| 0 <= k < s.len() ==> s[k] != 0x0au8,
    ensures
        first_nl_from(s, i) == -1,
    decreases s.len() - i,
{
    if i < s.len() {
        lemma_first_nl_none(s, i + 1);
    }
}

proof fn lemma_trim_front_skip(s: Seq<u8>, k: int)
    requires
        0 <= k <= s.len(),
        forall|j: int| 0 <= j < k ==> is_space(#[trigger] s[j]),
        k < s.len() ==> !is_space(s[k]),
    ensures
        trim_front(s) == s.skip(k),
    decreases k,
{
    if k == 0 {
        assert(s.skip(0) =~= s);
    } else {
        assert(is_space(s[0]));
        lemma_trim_front_skip(s.drop_first(), k - 1);
        assert(s.drop_first().skip(k - 1) =~= s.skip(k));
    }
}

proof fn lemma_trim_back_take(s: Seq<u8>, m: int)
    requires
        0 <= m <= s.len(),
        forall|j: int| m <= j < s.len() ==> is_space(#[trigger] s[j]),
        m > 0 ==> !is_space(s[m - 1]),
    ensures
        trim_back(s) == s.take(m),
    decreases s.len() - m,
{
    if m == s.len() {
        assert(s.take(m) =~= s);
    } else {
        assert(is_space(s.last()));
        lemma_trim_back_take(s.drop_last(), m);
        assert(s.drop_last().take(m) =~= s.take(m));
    }
}

/// Whether `b` is ASCII whitespace.
fn is_space_byte(b: u8) -> (r: bool)
    ensures
        r == is_space(b),
{
    b == 0x20 || b == 0x09 || b == 0x0a || b == 0x0b || b == 0x0c || b == 0x0d
}

/// The cell character of one pixel line, or `None` for a line without the
/// `": "` marker.
fn line_cell_byte(line: &Vec<u8>) -> (r: Option<u8>)
    ensures
        (match r {
            Some(b) => line_cell(line@) == seq![b],
            None => line_cell(line@) == Seq::<u8>::empty(),
        }),
{
    let n: usize = line.len();
    let mut i: usize = 0;
    while n > 0 && i < n - 1 && !(line[i] == 0x3au8 && line[i + 1] == 0x20u8)
        invariant
            i <= n,
            n == line@.len(),
            first_cs_from(line@, 0) == first_cs_from(line@, i as int),
        decreases n - i,
    {
        proof {
            assert(first_cs_from(line@, i as int) == first_cs_from(line@, i as int + 1));
        }
        i = i + 1;
    }
    if n > 0 && i < n - 1 {
        proof {
            assert(first_cs_from(line@, 0) == i as int);
        }
        let mut ts: usize = i + 2;
        while ts < n && is_space_byte(line[ts])
            invariant
                i + 2 <= ts <= n,
                n == line@.len(),
                forall|j: int| i + 2 <= j < ts ==> is_space(#[trigger] line@[j]),
            decreases n - ts,
        {
            ts = ts + 1;
        }
        let mut te: usize = n;
        while te > ts && is_space_byte(line[te - 1])
            invariant
                ts <= te <= n,
                n == line@.len(),
                forall|j: int| te <= j < n ==> is_space(#[trigger] line@[j]),
            decreases te,
        {
            te = te - 1;
        }
        proof {
            let v = line@.skip(i as int + 2);
            assert forall|j: int| 0 <= j < ts - (i as int + 2) implies is_space(
                #[trigger] v[j],
            ) by {
                assert(v[j] == line@[i as int + 2 + j]);
            }
            lemma_trim_front_skip(v, ts as int - (i as int + 2));
            let w = v.skip(ts as int - (i as int + 2));
            assert(w =~= line@.subrange(ts as int, n as int));
            assert forall|j: int| te - ts <= j < w.len() implies is_space(#[trigger] w[j]) by {
                assert(w[j] == line@[ts + j]);
            }
            lemma_trim_back_take(w, te as int - ts as int);
            assert(w.take(te as int - ts as int) =~= line@.subrange(ts as int, te as int));
            assert(trimmed(v) == line@.subrange(ts as int, te as int));
        }
        let is_black: bool = te - ts == 7 && line[ts] == 0x23u8 && line[ts + 1] == 0x30u8 && line[ts
            + 2] == 0x30u8 && line[ts + 3] == 0x30u8 && line[ts + 4] == 0x30u8 && line[ts + 5]
            == 0x30u8 && line[ts + 6] == 0x30u8;
        proof {
            let sub = line@.subrange(ts as int, te as int);
            if is_black {
                assert(sub =~= black());
            } else {
                if sub == black() {
                    assert(sub[0] == 0x23u8 && sub[1] == 0x30u8 && sub[2] == 0x30u8 && sub[3]
                        == 0x30u8 && sub[4] == 0x30u8 && sub[5] == 0x30u8 && sub[6] == 0x30u8);
                }
            }
        }
        if is_black {
            Some(0x20)
        } else {
            Some(0x23)
        }
    } else {
        proof {
            assert(first_cs_from(line@, i as int) == -1);
            assert(line_cell(line@) == Seq::<u8>::empty());
        }
        None
    }
}

/// Whether this pixel line starts a new output row.
fn line_row_break(line: &Vec<u8>) -> (r: bool)
    ensures
        r == line_breaks_row(line@),
{
    let n: usize = line.len();
    let c1: bool = n >= 4 && line[n - 4] == 0x2cu8 && line[n - 3] == 0x30u8 && line[n - 2]
        == 0x3au8 && line[n - 1] == 0x20u8;
    let c2: bool = n >= 11 && line[n - 11] == 0x2cu8 && line[n - 10] == 0x30u8 && line[n - 9]
        == 0x3au8 && line[n - 8] == 0x20u8 && line[n - 7] == 0x23u8 && line[n - 6] == 0x30u8 && line[n
        - 5] == 0x30u8 && line[n - 4] == 0x30u8 && line[n - 3] == 0x30u8 && line[n - 2] == 0x30u8
        && line[n - 1] == 0x30u8;
    let c3: bool = n >= 11 && line[n - 11] == 0x2cu8 && line[n - 10] == 0x30u8 && line[n - 9]
        == 0x3au8 && line[n - 8] == 0x20u8 && line[n - 7] == 0x23u8 && line[n - 6] == 0x46u8 && line[n
        - 5] == 0x46u8 && line[n - 4] == 0x46u8 && line[n - 3] == 0x46u8 && line[n - 2] == 0x46u8
        && line[n - 1] == 0x46u8;
    proof {
        if c1 {
            assert(line@.skip(n as int - 4) =~= row_mark_bare());
        } else if ends_with(line@, row_mark_bare()) {
            let sfx = line@.skip(n as int - 4);
            assert(sfx[0] == 0x2cu8 && sfx[1] == 0x30u8 && sfx[2] == 0x3au8 && sfx[3] == 0x20u8);
        }
        if c2 {
            assert(line@.skip(n as int - 11) =~= row_mark_black());
        } else if ends_with(line@, row_mark_black()) {
            let sfx = line@.skip(n as int - 11);
            assert(sfx[0] == 0x2cu8 && sfx[1] == 0x30u8 && sfx[2] == 0x3au8 && sfx[3] == 0x20u8
                && sfx[4] == 0x23u8 && sfx[5] == 0x30u8 && sfx[6] == 0x30u8 && sfx[7] == 0x30u8
                && sfx[8] == 0x30u8 && sfx[9] == 0x30u8 && sfx[10] == 0x30u8);
        }
        if c3 {
            assert(line@.skip(n as int - 11) =~= row_mark_white());
        } else if ends_with(line@, row_mark_white()) {
            let sfx = line@.skip(n as int - 11);
            assert(sfx[0] == 0x2cu8 && sfx[1] == 0x30u8 && sfx[2] == 0x3au8 && sfx[3] == 0x20u8
                && sfx[4] == 0x23u8 && sfx[5] == 0x46u8 && sfx[6] == 0x46u8 && sfx[7] == 0x46u8
                && sfx[8] == 0x46u8 && sfx[9] == 0x46u8 && sfx[10] == 0x46u8);
        }
        assert((c1 || c2 || c3) == line_breaks_row(line@));
    }
    c1 || c2 || c3
}

/// Appends the art contribution of one pixel line to `out`.
fn push_line_art(out: &mut Vec<u8>, line: &Vec<u8>)
    ensures
        final(out)@ == old(out)@ + line_art(line@),
{
    let cell = line_cell_byte(line);
    match cell {
        Some(b) => {
            out.push(b);
        },
        None => {},
    }
    if line_row_break(line) {
        out.push(0x0a);
    }
    proof {
        assert(out@ =~= old(out)@ + line_art(line@));
    }
}

/// Splits the converter's raw output into its lines.
fn split_lines_exec(txt: &Vec<u8>) -> (lines: Vec<Vec<u8>>)
    ensures
        byte_views(lines@) == split_lines(txt@),
{
    let n: usize = txt.len();
    let mut lines: Vec<Vec<u8>> = Vec::new();
    let mut pos: usize = 0;
    proof {
        assert(txt@.skip(0) =~= txt@);
        assert(byte_views(lines@) =~= Seq::<Seq<u8>>::empty());
    }
    while pos < n
        invariant
            pos <= n,
            n == txt@.len(),
            split_lines(txt@) == byte_views(lines@) + split_lines(txt@.skip(pos as int)),
        decreases n - pos,
    {
        let ghost lines_before = lines@;
        let mut j: usize = pos;
        while j < n && txt[j] != 0x0au8
            invariant
                pos <= j <= n,
                n == txt@.len(),
                forall|k: int| pos <= k < j ==> txt@[k] != 0x0au8,
            decreases n - j,
        {
            j = j + 1;
        }
        let end: usize = if j > pos && txt[j - 1] == 0x0du8 {
            j - 1
        } else {
            j
        };
        let mut line: Vec<u8> = Vec::new();
        let mut k: usize = pos;
        while k < end
            invariant
                pos <= k <= end,
                end <= n,
                n == txt@.len(),
                line@ == txt@.subrange(pos as int, k as int),
            decreases end - k,
        {
            line.push(txt[k]);
            proof {
                assert(line@ =~= txt@.subrange(pos as int, k as int + 1));
            }
            k = k + 1;
        }
        let next_pos: usize = if j < n {
            j + 1
        } else {
            n
        };
        proof {
            let suf = txt@.skip(pos as int);
            assert forall|k2: int| 0 <= k2 < j - pos implies suf[k2] != 0x0au8 by {
                assert(suf[k2] == txt@[pos + k2]);
            }
            if j < n {
                lemma_first_nl_at(suf, 0, j as int - pos as int);
                assert(suf.take(j as int - pos as int) =~= txt@.subrange(pos as int, j as int));
                assert(strip_cr(txt@.subrange(pos as int, j as int)) =~= txt@.subrange(
                    pos as int,
                    end as int,
                ));
                assert(suf.skip(j as int - pos as int + 1) =~= txt@.skip(next_pos as int));
                assert(split_lines(suf) == seq![txt@.subrange(pos as int, end as int)]
                    + split_lines(txt@.skip(next_pos as int)));
            } else {
                lemma_first_nl_none(suf, 0);
                assert(strip_cr(suf) =~= txt@.subrange(pos as int, end as int));
                assert(split_lines(suf) == seq![txt@.subrange(pos as int, end as int)]);
                assert(txt@.skip(next_pos as int).len() == 0);
            }
        }
        lines.push(line);
        proof {
            assert(byte_views(lines@) =~= byte_views(lines_before).push(
                txt@.subrange(pos as int, end as int),
            ));
            assert(byte_views(lines@) + split_lines(txt@.skip(next_pos as int)) =~= split_lines(
                txt@,
            ));
        }
        pos = next_pos;
    }
    proof {
        assert(split_lines(txt@.skip(pos as int)) =~= Seq::<Seq<u8>>::empty());
        assert(byte_views(lines@) =~= split_lines(txt@));
    }
    lines
}

/// Decodes the converter's whole text output into the ASCII art bytes to
/// write to the terminal.
pub fn decode_ascii_art(txt: &Vec<u8>) -> (art: Vec<u8>)
    ensures
        art@ == ascii_art(txt@),
{
    let lines = split_lines_exec(txt);
    let ghost lviews = byte_views(lines@);
    let mut art: Vec<u8> = Vec::new();
    let mut k: usize = 0;
    proof {
        assert(art@ + art_from(lviews, 0) =~= art_from(lviews, 0));
    }
    while k < lines.len()
        invariant
            k <= lines@.len(),
            lviews == byte_views(lines@),
            ascii_art(txt@) == art@ + art_from(lviews, k as int),
        decreases lines@.len() - k,
    {
        push_line_art(&mut art, &lines[k]);
        proof {
            assert(lviews[k as int] == lines@[k as int]@);
            assert(art_from(lviews, k as int) == line_art(lviews[k as int]) + art_from(
                lviews,
                k as int + 1,
            ));
            assert(art@ + art_from(lviews, k as int + 1) =~= ascii_art(txt@));
        }
        k = k + 1;
    }
    proof {
        assert(art_from(lviews, k as int) =~= Seq::<u8>::empty());
        assert(art@ =~= ascii_art(txt@));
    }
    art
}

} // verus!
