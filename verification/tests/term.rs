use xfx::tui::term::{
    abnormal_restore, first_failure, mode_set, raw_from, restore_pair, shutdown, size_or_default,
    under_tmux, Discipline, Owned, Step, Winsize, ABNORMAL_RESTORE, ABNORMAL_RESTORE_TMUX,
    DEFAULT_COLS, DEFAULT_ROWS, MODE_SET, MODE_SET_TMUX, RESTORE, RESTORE_TMUX,
};

const PUSH_TITLE: &str = "\u{1b}[22;2t";
const POP_TITLE: &str = "\u{1b}[23;2t";

fn cooked() -> Discipline {
    Discipline {
        brkint: true,
        icrnl: true,
        inpck: true,
        istrip: true,
        ixon: true,
        ixoff: true,
        cs8: false,
        echo: true,
        icanon: true,
        iexten: true,
        isig: true,
        vmin: 0,
        vtime: 4,
        output: 5,
    }
}

fn owned() -> Owned {
    Owned {
        attributes: cooked(),
        input: 0,
        output: 1,
    }
}

/// Everything a plan writes, one write behind the other.
fn written(plan: &[Step]) -> String {
    let mut text = String::new();
    for step in plan {
        if let Step::Write { bytes, .. } = step {
            text.push_str(bytes);
        }
    }
    text
}

#[test]
fn the_fixture_is_a_terminal_raw_mode_would_have_work_to_do() {
    let cooked = cooked();
    assert!(cooked.brkint && cooked.icrnl && cooked.inpck && cooked.istrip);
    assert!(cooked.ixon && cooked.ixoff);
    assert!(cooked.echo && cooked.icanon && cooked.iexten && cooked.isig);
    assert_eq!(cooked.vmin, 0, "VMIN");
    assert_eq!(cooked.vtime, 4, "VTIME");
}

#[test]
fn raw_mode_clears_exactly_the_bits_upstream_clears() {
    let raw = raw_from(&cooked());
    assert!(!raw.brkint && !raw.icrnl && !raw.inpck && !raw.istrip);
    assert!(!raw.ixon && !raw.ixoff);
    assert!(!raw.echo && !raw.icanon && !raw.iexten && !raw.isig);
    assert!(raw.cs8, "CS8 is not set");
    assert_eq!(raw.vmin, 1);
    assert_eq!(raw.vtime, 0);
}

#[test]
fn raw_mode_leaves_output_processing_alone() {
    let cooked = cooked();
    assert_eq!(raw_from(&cooked).output, cooked.output);
}

#[test]
fn entering_raw_mode_twice_is_entering_it_once() {
    let raw = raw_from(&cooked());
    assert_eq!(raw_from(&raw), raw);
}

#[test]
fn the_mode_sets_and_restores_are_exactly_these_bytes_in_exactly_this_order() {
    assert_eq!(
        MODE_SET,
        "\u{1b}[>4;2m\u{1b}[>1u\u{1b}[?2004h\u{1b}[?7l\u{1b}[22;2t"
    );
    assert_eq!(
        MODE_SET_TMUX,
        "\u{1b}[>4;2m\u{1b}[?2004h\u{1b}[?7l\u{1b}[22;2t"
    );
    assert_eq!(
        RESTORE,
        "\u{1b}[23;2t\u{1b}[>4;0m\u{1b}[<u\u{1b}[?2004l\u{1b}[?7h\u{1b}[?25h"
    );
    assert_eq!(
        RESTORE_TMUX,
        "\u{1b}[23;2t\u{1b}[>4;0m\u{1b}[?2004l\u{1b}[?7h\u{1b}[?25h"
    );
    assert_eq!(
        ABNORMAL_RESTORE,
        "\u{1b}[?1049l\u{1b}[23;2t\u{1b}[>4;0m\u{1b}[<u\u{1b}[?2004l\u{1b}[?7h\u{1b}[?25h"
    );
    assert_eq!(
        ABNORMAL_RESTORE_TMUX,
        "\u{1b}[?1049l\u{1b}[23;2t\u{1b}[>4;0m\u{1b}[?2004l\u{1b}[?7h\u{1b}[?25h"
    );
}

#[test]
fn every_session_pushes_the_terminals_title_once_and_pops_it_once() {
    for set in [MODE_SET, MODE_SET_TMUX] {
        assert_eq!(set.matches(PUSH_TITLE).count(), 1, "{set:?}");
        assert!(
            !set.contains(POP_TITLE),
            "a mode set popped a title: {set:?}"
        );
    }
    for restore in [
        RESTORE,
        RESTORE_TMUX,
        ABNORMAL_RESTORE,
        ABNORMAL_RESTORE_TMUX,
    ] {
        assert_eq!(restore.matches(POP_TITLE).count(), 1, "{restore:?}");
        assert!(
            !restore.contains(PUSH_TITLE),
            "a restore pushed a title: {restore:?}"
        );
    }
}

#[test]
fn the_title_is_given_back_before_anything_else_a_restore_does() {
    for restore in [RESTORE, RESTORE_TMUX] {
        assert!(restore.starts_with(POP_TITLE), "{restore:?}");
    }
    for restore in [ABNORMAL_RESTORE, ABNORMAL_RESTORE_TMUX] {
        assert!(
            restore.starts_with(&format!("\u{1b}[?1049l{POP_TITLE}")),
            "{restore:?}"
        );
    }
}

#[test]
fn the_normal_restore_never_leaves_an_alternate_screen_that_was_never_entered() {
    assert!(!RESTORE.contains("1049"), "normal restore: {RESTORE:?}");
    assert!(
        !RESTORE_TMUX.contains("1049"),
        "normal restore: {RESTORE_TMUX:?}"
    );
    assert!(
        ABNORMAL_RESTORE.contains("\u{1b}[?1049l"),
        "abnormal restore drops its guard"
    );
    assert!(
        ABNORMAL_RESTORE_TMUX.contains("\u{1b}[?1049l"),
        "abnormal restore drops its guard"
    );
}

#[test]
fn tmux_never_gets_the_kitty_push_or_the_pop() {
    assert!(MODE_SET.contains("\u{1b}[>1u"));
    assert!(!MODE_SET_TMUX.contains("\u{1b}[>1u"));
    assert!(!RESTORE_TMUX.contains("\u{1b}[<u"));
    assert!(!ABNORMAL_RESTORE_TMUX.contains("\u{1b}[<u"));
}

#[test]
fn the_mode_set_enables_no_mouse_reporting_on_the_main_surface() {
    for mouse in ["1000h", "1002h", "1003h", "1006h"] {
        assert!(!MODE_SET.contains(mouse), "{mouse} is in {MODE_SET:?}");
        assert!(
            !MODE_SET_TMUX.contains(mouse),
            "{mouse} is in {MODE_SET_TMUX:?}"
        );
    }
}

#[test]
fn the_restore_puts_the_attributes_back_on_the_descriptor_they_came_from() {
    for plan in [
        shutdown(Some(owned()), false, None),
        shutdown(Some(owned()), true, Some(3)),
        restore_pair(Some(owned()), false),
    ] {
        let installed: Vec<&Step> = plan
            .iter()
            .filter(|step| matches!(step, Step::Install { .. }))
            .collect();
        assert_eq!(
            installed,
            vec![&Step::Install {
                on: 0,
                attributes: cooked()
            }]
        );
        for step in &plan {
            if let Step::Write { to, .. } = step {
                assert_eq!(*to, 1, "the restore wrote to the input descriptor");
            }
        }
    }
}

#[test]
fn a_screen_that_cannot_be_written_still_gets_its_line_discipline_back() {
    let plan = shutdown(Some(owned()), false, Some(21));
    assert_eq!(plan.len(), 3);
    assert!(matches!(plan[1], Step::Install { on: 0, .. }));
    assert_eq!(
        first_failure(Err("the screen went away"), Ok(()), Err("later")),
        Err("the screen went away")
    );
    assert_eq!(first_failure(Ok(()), Err("attributes"), Ok(())), Err("attributes"));
    assert_eq!(first_failure(Ok(()), Ok(()), Err("cleanup")), Err("cleanup"));
    assert_eq!(first_failure::<&str>(Ok(()), Ok(()), Ok(())), Ok(()));
}

#[test]
fn a_session_with_no_band_moves_no_cursor_and_erases_nothing_on_the_way_out() {
    let text = written(&shutdown(Some(owned()), false, None));
    assert_eq!(text, RESTORE, "the exit wrote more than the restore");
    assert!(
        !text.contains("\u{1b}[J"),
        "a screen xfx never drew on was erased: {text:?}"
    );
}

#[test]
fn a_session_with_a_band_clears_from_its_top_downward() {
    let text = written(&shutdown(Some(owned()), false, Some(21)));
    assert_eq!(text, format!("{RESTORE}\u{1b}[21;1H\u{1b}[J\u{1b}[?25h\n"));
}

#[test]
fn a_tmux_session_exits_through_the_tmux_restore() {
    assert_eq!(written(&shutdown(Some(owned()), true, None)), RESTORE_TMUX);
}

#[test]
fn a_process_that_never_took_the_terminal_gives_nothing_back() {
    assert!(shutdown(None, false, Some(21)).is_empty());
    assert!(restore_pair(None, false).is_empty());
}

#[test]
fn an_exit_that_was_not_planned_leaves_the_alternate_screen_first() {
    assert_eq!(written(&restore_pair(Some(owned()), false)), ABNORMAL_RESTORE);
    assert_eq!(
        written(&restore_pair(Some(owned()), true)),
        ABNORMAL_RESTORE_TMUX
    );
    assert_eq!(abnormal_restore(true), ABNORMAL_RESTORE_TMUX);
    assert_eq!(mode_set(false), MODE_SET);
    assert_eq!(mode_set(true), MODE_SET_TMUX);
}

#[test]
fn tmux_is_a_variable_that_says_something() {
    assert!(under_tmux(Some(b"/tmp/tmux-1000/default,1,0")));
    assert!(!under_tmux(Some(b"")));
    assert!(!under_tmux(None));
}

#[test]
fn a_terminal_that_will_not_say_its_size_is_twenty_four_by_eighty() {
    assert_eq!(size_or_default(None), (DEFAULT_ROWS, DEFAULT_COLS));
    assert_eq!((DEFAULT_ROWS, DEFAULT_COLS), (24, 80));
}

#[test]
fn a_zero_dimension_is_a_refusal_rather_than_a_size() {
    for (rows, cols) in [(0, 80), (24, 0), (0, 0)] {
        assert_eq!(
            size_or_default(Some(Winsize {
                ws_row: rows,
                ws_col: cols,
            })),
            (DEFAULT_ROWS, DEFAULT_COLS),
            "{rows}x{cols} was taken for a size"
        );
    }
}

#[test]
fn a_terminal_that_answers_is_taken_at_its_word() {
    assert_eq!(
        size_or_default(Some(Winsize {
            ws_row: 40,
            ws_col: 132,
        })),
        (40, 132)
    );
}
