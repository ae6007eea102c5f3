//! The scroll engine: the row pattern of column offsets and its per-tick
//! advance.
//!
//! A session owns a pattern of `height` rows; row `i` holds the column
//! offsets at which the token is painted. Rows alternate between an aligned
//! layout (offsets `0, 6, 12, ...`) and one shifted by half the stride
//! (`3, 9, 15, ...`), and each tick evicts the top row, appends a freshly
//! computed bottom row using the current phase, and then toggles the phase.
//! The new bottom row is computed *before* the toggle; the alternative
//! (toggle first) only swaps which of the two layouts appears first.

use vstd::arithmetic::div_mod::lemma_add_mod_noop;
use vstd::prelude::*;

verus! {

/// Length in cells of the painted token.
pub const TOKEN_LEN: u16 = 5;

/// Horizontal spacing between consecutive token placements in a row.
pub const STRIDE: u16 = 6;

/// Shift of a "shifted" row: half the stride.
pub const HALF_STRIDE: u16 = 3;

/// Exclusive upper bound for column offsets: a token drawn at column `c`
/// occupies `c .. c + TOKEN_LEN`, so `c` stays below `width - TOKEN_LEN`;
/// a viewport narrower than the token admits no offset at all.
pub open spec fn col_limit(width: u16) -> int {
    if width >= TOKEN_LEN {
        width - TOKEN_LEN
    } else {
        0
    }
}

/// Shift of row `y` at phase `phase`: aligned rows shift by 0, the others by
/// half the stride, alternating across rows and across ticks.
pub open spec fn row_shift(y: int, phase: int) -> int {
    if (y + phase) % 2 == 0 {
        0
    } else {
        HALF_STRIDE as int
    }
}

/// The column offsets `STRIDE * k + shift` for `k` from `k0` up to
/// `width / STRIDE`, keeping those below `col_limit(width)`.
pub open spec fn row_cols_from(width: u16, shift: int, k0: int) -> Seq<u16>
    decreases width as int / STRIDE as int - k0,
{
    if k0 < 0 || k0 >= width as int / STRIDE as int {
        Seq::empty()
    } else {
        let cand = STRIDE as int * k0 + shift;
        let rest = row_cols_from(width, shift, k0 + 1);
        if cand < col_limit(width) {
            seq![cand as u16] + rest
        } else {
            rest
        }
    }
}

/// The full set of column offsets of a row with the given shift, in
/// increasing order.
pub open spec fn row_cols(width: u16, shift: int) -> Seq<u16> {
    row_cols_from(width, shift, 0)
}

pub proof fn lemma_row_cols_from_range(width: u16, shift: int, k0: int)
    requires
        0 <= shift,
    ensures
        forall|i: int|
            0 <= i < row_cols_from(width, shift, k0).len() ==> 0 <= #[trigger] row_cols_from(
                width,
                shift,
                k0,
            )[i] < col_limit(width),
    decreases width as int / STRIDE as int - k0,
{
    if k0 < 0 || k0 >= width as int / STRIDE as int {
    } else {
        lemma_row_cols_from_range(width, shift, k0 + 1);
        let cand = STRIDE as int * k0 + shift;
        let rest = row_cols_from(width, shift, k0 + 1);
        if cand < col_limit(width) {
            assert(row_cols_from(width, shift, k0) == seq![cand as u16] + rest);
            assert(forall|i: int|
                1 <= i < row_cols_from(width, shift, k0).len()
                    ==> row_cols_from(width, shift, k0)[i] == #[trigger] rest[i - 1]);
        }
    }
}

/// Every column offset a row can emit fits the viewport: when the width is
/// at least the token length, each offset `c` satisfies
/// `0 <= c < width - TOKEN_LEN` (and below that width no offset is emitted).
pub proof fn lemma_offsets_within_viewport(width: u16, shift: int)
    requires
        0 <= shift,
        width >= TOKEN_LEN,
    ensures
        forall|i: int|
            0 <= i < row_cols(width, shift).len() ==> 0 <= #[trigger] row_cols(width, shift)[i]
                < width - TOKEN_LEN,
{
    lemma_row_cols_from_range(width, shift, 0);
}

/// Computes the shift of row `y` at phase `phase`.
pub fn shift_for(y: u16, phase: u16) -> (s: u16)
    ensures
        s as int == row_shift(y as int, phase as int),
{
    proof {
        lemma_add_mod_noop(y as int, phase as int, 2);
    }
    if (y % 2 + phase % 2) % 2 == 0 {
        0
    } else {
        HALF_STRIDE
    }
}

/// Builds one row of column offsets for the given shift.
pub fn build_row(width: u16, shift: u16) -> (r: Vec<u16>)
    requires
        shift <= HALF_STRIDE,
    ensures
        r@ == row_cols(width, shift as int),
{
    let mut r: Vec<u16> = Vec::new();
    let n: u16 = width / STRIDE;
    let limit: u16 = if width >= TOKEN_LEN {
        width - TOKEN_LEN
    } else {
        0
    };
    let mut k: u16 = 0;
    while k < n
        invariant
            n == width / STRIDE,
            limit as int == col_limit(width),
            shift <= HALF_STRIDE,
            k <= n,
            row_cols(width, shift as int) == r@ + row_cols_from(width, shift as int, k as int),
        decreases n - k,
    {
        proof {
            assert(STRIDE as int * (n as int) <= width as int) by (nonlinear_arith)
                requires n as int == width as int / STRIDE as int;
            assert(STRIDE as int * (k as int) + STRIDE as int <= STRIDE as int * (n as int))
                by (nonlinear_arith)
                requires k < n;
        }
        let cand: u16 = k * STRIDE + shift;
        proof {
            let tail = row_cols_from(width, shift as int, k as int + 1);
            if cand < limit {
                assert(row_cols_from(width, shift as int, k as int) == seq![cand] + tail);
                assert(r@ + row_cols_from(width, shift as int, k as int) =~= r@.push(cand)
                    + tail);
            }
        }
        if cand < limit {
            r.push(cand);
        }
        k = k + 1;
    }
    proof {
        assert(row_cols_from(width, shift as int, n as int) =~= Seq::<u16>::empty());
        assert(r@ + Seq::<u16>::empty() =~= r@);
    }
    r
}

/// The animation state: the viewport, the alternating phase, and the row
/// pattern (one entry of column offsets per screen row).
pub struct ScrollState {
    pub width: u16,
    pub height: u16,
    pub phase: u16,
    pub rows: Vec<Vec<u16>>,
}

/// The pattern right after startup at phase 0: row `y` uses shift
/// `row_shift(y, 0)`.
pub open spec fn initial_pattern(width: u16, height: u16) -> Seq<Seq<u16>> {
    Seq::new(height as nat, |y: int| row_cols(width, row_shift(y, 0)))
}

/// One tick of the pattern: evict the top row, append a freshly computed
/// bottom row (row index `height - 1`, the given pre-toggle phase).
pub open spec fn step_rows(width: u16, height: u16, rows: Seq<Seq<u16>>, phase: int) -> Seq<
    Seq<u16>,
> {
    rows.subrange(1, rows.len() as int).push(row_cols(width, row_shift(height - 1, phase)))
}

/// The pattern after `n` ticks.
pub open spec fn run_rows(
    width: u16,
    height: u16,
    rows: Seq<Seq<u16>>,
    phase: int,
    n: nat,
) -> Seq<Seq<u16>>
    decreases n,
{
    if n == 0 {
        rows
    } else {
        run_rows(width, height, step_rows(width, height, rows, phase), (phase + 1) % 2, (n
            - 1) as nat)
    }
}

/// The phase after `n` ticks.
pub open spec fn run_phase(phase: int, n: nat) -> int
    decreases n,
{
    if n == 0 {
        phase
    } else {
        run_phase((phase + 1) % 2, (n - 1) as nat)
    }
}

/// Every offset in a well-formed state's pattern fits the viewport: when
/// the width is at least the token length, each offset `c` of each row
/// satisfies `0 <= c < width - TOKEN_LEN`.
pub proof fn lemma_state_offsets_within_viewport(s: ScrollState)
    requires
        s.wf(),
        s.width >= TOKEN_LEN,
    ensures
        forall|i: int, j: int|
            0 <= i < s.pattern().len() && 0 <= j < s.pattern()[i].len() ==> 0
                <= #[trigger] s.pattern()[i][j] < s.width - TOKEN_LEN,
{
    lemma_row_cols_from_range(s.width, 0, 0);
    lemma_row_cols_from_range(s.width, HALF_STRIDE as int, 0);
}

/// A steady pattern at phase `phase`: every row is the freshly computed
/// bottom-row layout of the tick that produced it. Row `i` entered the
/// pattern `height - 1 - i` ticks before the last appended row, so it was
/// computed with a phase of the parity of `phase + height + i`.
pub open spec fn steady(width: u16, height: u16, rows: Seq<Seq<u16>>, phase: int) -> bool {
    &&& rows.len() == height as int
    &&& forall|i: int|
        0 <= i < rows.len() ==> #[trigger] rows[i] == row_cols(
            width,
            row_shift(height as int - 1, phase + height as int + i),
        )
}

/// As `steady`, but only for the `k` newest (bottom-most) rows.
pub open spec fn steady_suffix(
    width: u16,
    height: u16,
    rows: Seq<Seq<u16>>,
    phase: int,
    k: int,
) -> bool {
    &&& rows.len() == height as int
    &&& forall|i: int|
        0 <= i < rows.len() && height as int - k <= i ==> #[trigger] rows[i] == row_cols(
            width,
            row_shift(height as int - 1, phase + height as int + i),
        )
}

proof fn lemma_mod2_add_left(a: int, b: int)
    requires
        a >= 0,
        b >= 0,
    ensures
        (a % 2 + b) % 2 == (a + b) % 2,
{
    lemma_add_mod_noop(a, b, 2);
    lemma_add_mod_noop(a % 2, b, 2);
}

proof fn lemma_mod2_add_even(a: int, e: int)
    requires
        a >= 0,
        e >= 0,
        e % 2 == 0,
    ensures
        (a + e) % 2 == a % 2,
{
    lemma_add_mod_noop(a, e, 2);
}

/// The row shift depends only on the parity of the phase.
proof fn lemma_row_shift_parity(y: int, a: int, b: int)
    requires
        y >= 0,
        a >= 0,
        b >= 0,
        a % 2 == b % 2,
    ensures
        row_shift(y, a) == row_shift(y, b),
{
    lemma_add_mod_noop(y, a, 2);
    lemma_add_mod_noop(y, b, 2);
}

/// The row pattern keeps its length across any number of ticks.
pub proof fn lemma_pattern_length_invariant(
    width: u16,
    height: u16,
    rows: Seq<Seq<u16>>,
    phase: int,
    n: nat,
)
    requires
        rows.len() == height as int,
        height >= 1,
    ensures
        run_rows(width, height, rows, phase, n).len() == height as int,
    decreases n,
{
    if n > 0 {
        lemma_pattern_length_invariant(
            width,
            height,
            step_rows(width, height, rows, phase),
            (phase + 1) % 2,
            (n - 1) as nat,
        );
    }
}

/// Running `m + n` ticks is running `m` ticks and then `n` more.
pub proof fn lemma_run_compose(
    width: u16,
    height: u16,
    rows: Seq<Seq<u16>>,
    phase: int,
    m: nat,
    n: nat,
)
    ensures
        run_rows(width, height, rows, phase, m + n) == run_rows(
            width,
            height,
            run_rows(width, height, rows, phase, m),
            run_phase(phase, m),
            n,
        ),
        run_phase(phase, m + n) == run_phase(run_phase(phase, m), n),
    decreases m,
{
    if m > 0 {
        lemma_run_compose(
            width,
            height,
            step_rows(width, height, rows, phase),
            (phase + 1) % 2,
            (m - 1) as nat,
            n,
        );
    }
}

/// One tick of `run_rows` is one `step_rows`.
proof fn lemma_run_one(width: u16, height: u16, rows: Seq<Seq<u16>>, phase: int)
    ensures
        run_rows(width, height, rows, phase, 1) == step_rows(width, height, rows, phase),
        run_phase(phase, 1) == (phase + 1) % 2,
{
    let rows1 = step_rows(width, height, rows, phase);
    let phase1 = (phase + 1) % 2;
    assert(run_rows(width, height, rows, phase, 1) == run_rows(width, height, rows1, phase1, 0));
    assert(run_phase(phase, 1) == run_phase(phase1, 0));
}

/// One tick extends a steady suffix of `k` rows to one of `k + 1` rows.
proof fn lemma_step_suffix(width: u16, height: u16, rows: Seq<Seq<u16>>, phase: int, k: int)
    requires
        height >= 1,
        phase >= 0,
        0 <= k,
        steady_suffix(width, height, rows, phase, k),
    ensures
        steady_suffix(
            width,
            height,
            step_rows(width, height, rows, phase),
            (phase + 1) % 2,
            k + 1,
        ),
{
    let h = height as int;
    let rows2 = step_rows(width, height, rows, phase);
    let phase2 = (phase + 1) % 2;
    assert forall|i: int| 0 <= i < rows2.len() && h - (k + 1) <= i implies #[trigger] rows2[i]
        == row_cols(width, row_shift(h - 1, phase2 + h + i)) by {
        if i == h - 1 {
            assert(rows2[i] == row_cols(width, row_shift(h - 1, phase)));
            lemma_mod2_add_left(phase + 1, 2 * h - 1);
            lemma_mod2_add_even(phase, 2 * h);
            lemma_row_shift_parity(h - 1, phase, phase2 + h + i);
        } else {
            assert(rows2[i] == rows[i + 1]);
            assert(rows[i + 1] == row_cols(width, row_shift(h - 1, phase + h + i + 1)));
            lemma_mod2_add_left(phase + 1, h + i);
            lemma_row_shift_parity(h - 1, phase + h + i + 1, phase2 + h + i);
        }
    }
}

/// Ticks preserve steadiness.
pub proof fn lemma_steady_run(width: u16, height: u16, rows: Seq<Seq<u16>>, phase: int, n: nat)
    requires
        height >= 1,
        phase >= 0,
        steady(width, height, rows, phase),
    ensures
        run_phase(phase, n) >= 0,
        steady(
            width,
            height,
            run_rows(width, height, rows, phase, n),
            run_phase(phase, n),
        ),
    decreases n,
{
    if n > 0 {
        let h = height as int;
        let rows2 = step_rows(width, height, rows, phase);
        let phase2 = (phase + 1) % 2;
        assert(steady_suffix(width, height, rows, phase, h));
        lemma_step_suffix(width, height, rows, phase, h);
        assert(steady(width, height, rows2, phase2));
        lemma_steady_run(width, height, rows2, phase2, (n - 1) as nat);
    }
}

/// From any pattern of the right length, `height` ticks reach a steady
/// pattern.
pub proof fn lemma_steady_after_height(width: u16, height: u16, rows: Seq<Seq<u16>>, phase: int)
    requires
        height >= 1,
        phase >= 0,
        rows.len() == height as int,
    ensures
        run_phase(phase, height as nat) >= 0,
        steady(
            width,
            height,
            run_rows(width, height, rows, phase, height as nat),
            run_phase(phase, height as nat),
        ),
{
    lemma_steady_suffix_run(width, height, rows, phase, height as nat);
}

proof fn lemma_steady_suffix_run(width: u16, height: u16, rows: Seq<Seq<u16>>, phase: int, n: nat)
    requires
        height >= 1,
        phase >= 0,
        rows.len() == height as int,
    ensures
        run_phase(phase, n) >= 0,
        steady_suffix(
            width,
            height,
            run_rows(width, height, rows, phase, n),
            run_phase(phase, n),
            n as int,
        ),
    decreases n,
{
    if n == 0 {
    } else {
        lemma_steady_suffix_run(width, height, rows, phase, (n - 1) as nat);
        lemma_run_compose(width, height, rows, phase, (n - 1) as nat, 1);
        let prev = run_rows(width, height, rows, phase, (n - 1) as nat);
        let pprev = run_phase(phase, (n - 1) as nat);
        lemma_run_one(width, height, prev, pprev);
        assert(run_rows(width, height, rows, phase, n) == step_rows(
            width,
            height,
            prev,
            pprev,
        ));
        assert(run_phase(phase, n) == (pprev + 1) % 2);
        lemma_step_suffix(width, height, prev, pprev, n as int - 1);
    }
}

/// A steady pattern repeats after two ticks.
pub proof fn lemma_steady_period_two(width: u16, height: u16, rows: Seq<Seq<u16>>, phase: int)
    requires
        height >= 1,
        phase >= 0,
        steady(width, height, rows, phase),
    ensures
        run_rows(width, height, rows, phase, 2) == rows,
{
    let h = height as int;
    let phase1 = (phase + 1) % 2;
    let rows1 = step_rows(width, height, rows, phase);
    let rows2 = step_rows(width, height, rows1, phase1);
    assert(run_rows(width, height, rows, phase, 2) == run_rows(width, height, rows1, phase1, 1));
    lemma_run_one(width, height, rows1, phase1);
    assert(run_rows(width, height, rows, phase, 2) == rows2);
    assert forall|i: int| 0 <= i < h implies #[trigger] rows2[i] == rows[i] by {
        if i == h - 1 {
            assert(rows2[i] == row_cols(width, row_shift(h - 1, phase1)));
            assert(rows[i] == row_cols(width, row_shift(h - 1, phase + 2 * h - 1)));
            lemma_mod2_add_even(phase + 1, 2 * h - 2);
            lemma_row_shift_parity(h - 1, phase1, phase + 2 * h - 1);
        } else if i == h - 2 {
            assert(rows2[i] == rows1[h - 1]);
            assert(rows1[h - 1] == row_cols(width, row_shift(h - 1, phase)));
            assert(rows[i] == row_cols(width, row_shift(h - 1, phase + 2 * h - 2)));
            lemma_mod2_add_even(phase, 2 * h - 2);
            lemma_row_shift_parity(h - 1, phase, phase + 2 * h - 2);
        } else {
            assert(rows2[i] == rows1[i + 1]);
            assert(rows1[i + 1] == rows[i + 2]);
            assert(rows[i + 2] == row_cols(width, row_shift(h - 1, phase + h + i + 2)));
            assert(rows[i] == row_cols(width, row_shift(h - 1, phase + h + i)));
            lemma_mod2_add_even(phase + h + i, 2);
            lemma_row_shift_parity(h - 1, phase + h + i + 2, phase + h + i);
        }
    }
    assert(rows2 =~= rows);
}

/// Once steady state is reached — `height` ticks always suffice — the
/// pattern repeats with period two: the pattern after tick `t` equals the
/// pattern after tick `t + 2`.
pub proof fn lemma_pattern_period_two(
    width: u16,
    height: u16,
    rows: Seq<Seq<u16>>,
    phase: int,
    t: nat,
)
    requires
        height >= 1,
        phase >= 0,
        rows.len() == height as int,
        t >= height as nat,
    ensures
        run_rows(width, height, rows, phase, (t + 2) as nat) == run_rows(
            width,
            height,
            rows,
            phase,
            t,
        ),
{
    let hn = height as nat;
    let sh = run_rows(width, height, rows, phase, hn);
    let ph = run_phase(phase, hn);
    lemma_steady_after_height(width, height, rows, phase);
    lemma_steady_run(width, height, sh, ph, (t - hn) as nat);
    let st = run_rows(width, height, sh, ph, (t - hn) as nat);
    let pt = run_phase(ph, (t - hn) as nat);
    lemma_run_compose(width, height, rows, phase, hn, (t - hn) as nat);
    assert(run_rows(width, height, rows, phase, t) == st);
    lemma_run_compose(width, height, rows, phase, t, 2);
    assert(run_rows(width, height, rows, phase, (t + 2) as nat) == run_rows(
        width,
        height,
        st,
        pt,
        2,
    ));
    lemma_steady_period_two(width, height, st, pt);
}

impl ScrollState {
    /// The row pattern as a sequence of rows of column offsets.
    pub open spec fn pattern(self) -> Seq<Seq<u16>> {
        Seq::new(self.rows@.len(), |i: int| self.rows@[i]@)
    }

    /// Well-formedness: the pattern has exactly `height` rows, the phase is a
    /// bit, and every row is one of the two row layouts.
    pub open spec fn wf(self) -> bool {
        &&& self.height >= 1
        &&& self.phase < 2
        &&& self.rows@.len() == self.height as int
        &&& forall|i: int|
            0 <= i < self.rows@.len() ==> (#[trigger] self.rows@[i]@ == row_cols(self.width, 0)
                || self.rows@[i]@ == row_cols(self.width, HALF_STRIDE as int))
    }

    /// Builds the startup pattern at phase 0.
    pub fn new(width: u16, height: u16) -> (s: ScrollState)
        requires
            height >= 1,
        ensures
            s.wf(),
            s.width == width,
            s.height == height,
            s.phase == 0,
            s.pattern() == initial_pattern(width, height),
    {
        let mut rows: Vec<Vec<u16>> = Vec::new();
        let mut y: u16 = 0;
        while y < height
            invariant
                y <= height,
                rows@.len() == y as int,
                forall|i: int|
                    0 <= i < y as int ==> #[trigger] rows@[i]@ == row_cols(width, row_shift(i, 0)),
            decreases height - y,
        {
            let shift: u16 = shift_for(y, 0);
            let row = build_row(width, shift);
            rows.push(row);
            y = y + 1;
        }
        let s = ScrollState { width, height, phase: 0, rows };
        proof {
            assert(s.pattern() =~= initial_pattern(width, height));
            assert forall|i: int| 0 <= i < s.rows@.len() implies (#[trigger] s.rows@[i]@
                == row_cols(s.width, 0) || s.rows@[i]@ == row_cols(s.width, HALF_STRIDE as int)) by {
                assert(s.rows@[i]@ == row_cols(width, row_shift(i, 0)));
            }
        }
        s
    }

    /// One tick: scroll the pattern up one row, recompute the bottom row with
    /// the current phase, then toggle the phase.
    pub fn advance(&mut self)
        requires
            old(self).wf(),
        ensures
            final(self).wf(),
            final(self).width == old(self).width,
            final(self).height == old(self).height,
            final(self).phase as int == (old(self).phase as int + 1) % 2,
            final(self).pattern() == step_rows(
                old(self).width,
                old(self).height,
                old(self).pattern(),
                old(self).phase as int,
            ),
    {
        let _evicted = self.rows.remove(0);
        let shift: u16 = shift_for(self.height - 1, self.phase);
        let row = build_row(self.width, shift);
        self.rows.push(row);
        self.phase = (self.phase + 1) % 2;
        proof {
            assert(self.pattern() =~= step_rows(
                old(self).width,
                old(self).height,
                old(self).pattern(),
                old(self).phase as int,
            ));
        }
    }
}

} // verus!
