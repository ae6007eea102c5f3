//! Composition of the per-tick render buffer.
//!
//! Each tick rebuilds one byte buffer holding plain ANSI escape sequences:
//! for every screen row a cursor-move and a line-clear, then for every
//! column offset of that row a cursor-move, the accent color, the token
//! text, and a color reset. The buffer is flushed to the terminal in a
//! single write by the caller; this module proves that the bytes are
//! exactly the frame the pattern describes.

use crate::digits::dec_of;
use crate::digits::push_decimal;
use crate::scroll::ScrollState;
use crate::scroll::col_limit;
use crate::scroll::lemma_row_cols_from_range;
use vstd::prelude::*;

verus! {

/// ESC `[` — the control sequence introducer.
pub open spec fn csi() -> Seq<u8> {
    seq![0x1bu8, 0x5bu8]
}

/// The token text painted at each offset: `babel`.
pub open spec fn token_bytes() -> Seq<u8> {
    seq![0x62u8, 0x61u8, 0x62u8, 0x65u8, 0x6cu8]
}

/// Escape: move the cursor to the given 1-based row, column 0
/// (`ESC [ <row> ; 0 H`).
pub open spec fn move_row_bytes(row: int) -> Seq<u8> {
    csi() + dec_of(row) + seq![0x3bu8, 0x30u8, 0x48u8]
}

/// Escape: clear the current line (`ESC [ 2 K`).
pub open spec fn clear_line_bytes() -> Seq<u8> {
    csi() + seq![0x32u8, 0x4bu8]
}

/// One painted cell: move to (row, col) (`ESC [ <row> ; <col> H`), set the
/// accent color (`ESC [ 3 1 m`), the token text, then reset the color
/// (`ESC [ 0 m`). Row and column are 1-based.
pub open spec fn cell_bytes(row: int, col: int) -> Seq<u8> {
    csi() + dec_of(row) + seq![0x3bu8] + dec_of(col) + seq![0x48u8] + csi() + seq![
        0x33u8,
        0x31u8,
        0x6du8,
    ] + token_bytes() + csi() + seq![0x30u8, 0x6du8]
}

/// The painted cells of 0-based screen row `y`, from column index `j` on.
pub open spec fn cells_from(y: int, cols: Seq<u16>, j: int) -> Seq<u8>
    decreases cols.len() - j,
{
    if j < 0 || j >= cols.len() {
        Seq::empty()
    } else {
        cell_bytes(y + 1, cols[j] + 1) + cells_from(y, cols, j + 1)
    }
}

/// The bytes of 0-based screen row `y`: position, clear, painted cells.
pub open spec fn row_bytes(y: int, cols: Seq<u16>) -> Seq<u8> {
    move_row_bytes(y + 1) + clear_line_bytes() + cells_from(y, cols, 0)
}

/// The bytes of the frame from row `y` on.
pub open spec fn frame_bytes_from(pattern: Seq<Seq<u16>>, y: int) -> Seq<u8>
    decreases pattern.len() - y,
{
    if y < 0 || y >= pattern.len() {
        Seq::empty()
    } else {
        row_bytes(y, pattern[y]) + frame_bytes_from(pattern, y + 1)
    }
}

/// The full frame: every row of the pattern in order.
pub open spec fn frame_bytes(pattern: Seq<Seq<u16>>) -> Seq<u8> {
    frame_bytes_from(pattern, 0)
}

fn push_csi(buf: &mut Vec<u8>)
    ensures
        final(buf)@ == old(buf)@ + csi(),
{
    buf.push(0x1b);
    buf.push(0x5b);
    proof {
        assert(buf@ =~= old(buf)@ + csi());
    }
}

fn push_move_row(buf: &mut Vec<u8>, row: u16)
    ensures
        final(buf)@ == old(buf)@ + move_row_bytes(row as int),
{
    push_csi(buf);
    push_decimal(buf, row);
    buf.push(0x3b);
    buf.push(0x30);
    buf.push(0x48);
    proof {
        assert(buf@ =~= old(buf)@ + move_row_bytes(row as int));
    }
}

fn push_clear_line(buf: &mut Vec<u8>)
    ensures
        final(buf)@ == old(buf)@ + clear_line_bytes(),
{
    push_csi(buf);
    buf.push(0x32);
    buf.push(0x4b);
    proof {
        assert(buf@ =~= old(buf)@ + clear_line_bytes());
    }
}

fn push_cell(buf: &mut Vec<u8>, row: u16, col: u16)
    ensures
        final(buf)@ == old(buf)@ + cell_bytes(row as int, col as int),
{
    push_csi(buf);
    push_decimal(buf, row);
    buf.push(0x3b);
    push_decimal(buf, col);
    buf.push(0x48);
    push_csi(buf);
    buf.push(0x33);
    buf.push(0x31);
    buf.push(0x6d);
    buf.push(0x62);
    buf.push(0x61);
    buf.push(0x62);
    buf.push(0x65);
    buf.push(0x6c);
    push_csi(buf);
    buf.push(0x30);
    buf.push(0x6d);
    proof {
        assert(buf@ =~= old(buf)@ + cell_bytes(row as int, col as int));
    }
}

/// Rebuilds the frame buffer for the state's current pattern into `buf`.
/// The buffer is cleared first, so one allocation can serve every tick.
pub fn render_frame_into(state: &ScrollState, buf: &mut Vec<u8>)
    requires
        state.wf(),
    ensures
        final(buf)@ == frame_bytes(state.pattern()),
{
    let ghost pattern = state.pattern();
    buf.clear();
    let mut y: u16 = 0;
    while y < state.height
        invariant
            state.wf(),
            pattern == state.pattern(),
            y <= state.height,
            frame_bytes(pattern) == buf@ + frame_bytes_from(pattern, y as int),
        decreases state.height - y,
    {
        let row: &Vec<u16> = &state.rows[y as usize];
        let ghost cols = row@;
        proof {
            lemma_row_cols_from_range(state.width, 0, 0);
            lemma_row_cols_from_range(state.width, crate::scroll::HALF_STRIDE as int, 0);
            assert(cols == pattern[y as int]);
            assert(forall|jj: int|
                0 <= jj < cols.len() ==> #[trigger] cols[jj] < col_limit(state.width));
        }
        push_move_row(buf, y + 1);
        push_clear_line(buf);
        proof {
            assert(frame_bytes_from(pattern, y as int) == row_bytes(y as int, cols)
                + frame_bytes_from(pattern, y as int + 1));
            assert(buf@ + cells_from(y as int, cols, 0) + frame_bytes_from(pattern, y as int + 1)
                =~= frame_bytes(pattern));
        }
        let mut j: usize = 0;
        while j < row.len()
            invariant
                state.wf(),
                pattern == state.pattern(),
                y < state.height,
                cols == row@,
                cols == pattern[y as int],
                row@ == state.rows@[y as int]@,
                forall|jj: int| 0 <= jj < cols.len() ==> #[trigger] cols[jj] < col_limit(state.width),
                j <= row.len(),
                frame_bytes(pattern) == buf@ + cells_from(y as int, cols, j as int)
                    + frame_bytes_from(pattern, y as int + 1),
            decreases row.len() - j,
        {
            let col: u16 = row[j];
            push_cell(buf, y + 1, col + 1);
            proof {
                assert(cells_from(y as int, cols, j as int) == cell_bytes(
                    y as int + 1,
                    cols[j as int] + 1,
                ) + cells_from(y as int, cols, j as int + 1));
                assert(buf@ + cells_from(y as int, cols, j as int + 1) + frame_bytes_from(
                    pattern,
                    y as int + 1,
                ) =~= frame_bytes(pattern));
            }
            j = j + 1;
        }
        proof {
            assert(cells_from(y as int, cols, j as int) =~= Seq::<u8>::empty());
            assert(buf@ + frame_bytes_from(pattern, y as int + 1) =~= frame_bytes(pattern));
        }
        y = y + 1;
    }
    proof {
        assert(frame_bytes_from(pattern, y as int) =~= Seq::<u8>::empty());
        assert(buf@ =~= frame_bytes(pattern));
    }
}

} // verus!
