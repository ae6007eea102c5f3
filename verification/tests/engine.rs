use babel_stream::render::render_frame_into;
use babel_stream::scroll::build_row;
use babel_stream::scroll::shift_for;
use babel_stream::scroll::ScrollState;
use babel_stream::scroll::HALF_STRIDE;
use babel_stream::scroll::TOKEN_LEN;
use babel_stream::session::quit_requested;
use babel_stream::session::viewport_or_default;

#[test]
fn worked_example_row_zero_phase_zero() {
    // width 12, stride 6, token length 5: offsets below 12 - 5 = 7.
    assert_eq!(build_row(12, 0), vec![0u16, 6u16]);
}

#[test]
fn worked_example_row_one_shifted() {
    assert_eq!(build_row(12, HALF_STRIDE), vec![3u16]);
}

#[test]
fn worked_example_initial_pattern() {
    let s = ScrollState::new(12, 2);
    assert_eq!(s.rows.len(), 2);
    assert_eq!(s.rows[0], vec![0u16, 6u16]);
    assert_eq!(s.rows[1], vec![3u16]);
    assert_eq!(s.phase, 0);
}

#[test]
fn offsets_stay_inside_viewport() {
    for width in 0u16..60 {
        for shift in [0u16, HALF_STRIDE] {
            for c in build_row(width, shift) {
                assert!(width >= TOKEN_LEN);
                assert!(c < width - TOKEN_LEN);
            }
        }
    }
}

#[test]
fn narrow_viewport_emits_nothing() {
    assert_eq!(build_row(5, 0), Vec::<u16>::new());
    assert_eq!(build_row(4, 0), Vec::<u16>::new());
    assert_eq!(build_row(0, 0), Vec::<u16>::new());
}

#[test]
fn shift_alternates_across_rows_and_phases() {
    assert_eq!(shift_for(0, 0), 0);
    assert_eq!(shift_for(1, 0), HALF_STRIDE);
    assert_eq!(shift_for(0, 1), HALF_STRIDE);
    assert_eq!(shift_for(1, 1), 0);
}

#[test]
fn pattern_length_invariant_across_ticks() {
    let mut s = ScrollState::new(40, 7);
    for _ in 0..25 {
        assert_eq!(s.rows.len(), 7);
        s.advance();
    }
    assert_eq!(s.rows.len(), 7);
}

#[test]
fn phase_toggles_every_tick() {
    let mut s = ScrollState::new(30, 3);
    assert_eq!(s.phase, 0);
    s.advance();
    assert_eq!(s.phase, 1);
    s.advance();
    assert_eq!(s.phase, 0);
}

#[test]
fn advance_scrolls_one_row() {
    let mut s = ScrollState::new(24, 4);
    let before = s.rows.clone();
    s.advance();
    // the old rows 1.. move up by one
    assert_eq!(&s.rows[..3], &before[1..]);
    // the new bottom row is the layout of row height-1 at the old phase 0
    assert_eq!(s.rows[3], build_row(24, shift_for(3, 0)));
}

#[test]
fn steady_pattern_repeats_with_period_two() {
    let mut s = ScrollState::new(25, 5);
    // reach steady state: height ticks
    for _ in 0..5 {
        s.advance();
    }
    let at_t = s.rows.clone();
    s.advance();
    let at_t1 = s.rows.clone();
    s.advance();
    assert_eq!(s.rows, at_t);
    s.advance();
    assert_eq!(s.rows, at_t1);
}

#[test]
fn render_single_cell_frame() {
    // width 7: limit 2, one candidate 0; one row.
    let s = ScrollState::new(7, 1);
    let mut buf = Vec::new();
    render_frame_into(&s, &mut buf);
    let expected = b"\x1b[1;0H\x1b[2K\x1b[1;1H\x1b[31mbabel\x1b[0m".to_vec();
    assert_eq!(buf, expected);
}

#[test]
fn render_two_rows_reuses_buffer() {
    let s = ScrollState::new(12, 2);
    let mut buf = vec![0xffu8; 3];
    render_frame_into(&s, &mut buf);
    let expected = b"\x1b[1;0H\x1b[2K\
                     \x1b[1;1H\x1b[31mbabel\x1b[0m\
                     \x1b[1;7H\x1b[31mbabel\x1b[0m\
                     \x1b[2;0H\x1b[2K\
                     \x1b[2;4H\x1b[31mbabel\x1b[0m"
        .to_vec();
    assert_eq!(buf, expected);
}

#[test]
fn quit_key_is_the_only_quit() {
    assert!(quit_requested(Some('q')));
    assert!(!quit_requested(Some('Q')));
    assert!(!quit_requested(Some('x')));
    assert!(!quit_requested(None));
}

#[test]
fn viewport_falls_back_to_default() {
    assert_eq!(viewport_or_default(Some((120, 40))), (120, 40));
    assert_eq!(viewport_or_default(None), (80, 24));
}
