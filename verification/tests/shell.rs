use xfx::tui::band::Geometry;
use xfx::tui::bridge::{
    ApprovalAnswer, ApprovalSurface, CatalogEntry, ProviderId, TurnControl, TurnWork, UiEvent,
};
use xfx::tui::shell::{
    expanded_prompt, is_expansion, Action, Asks, Chore, Escape, HistoryStep, Input, Interrupt, PanelKey, Pasted,
    PickerOutcome, Recall, Refusal, Resize, Route, ScreenOwner, Shell, Slot, Submitted,
    CLEARED_NOTICE, ESCAPE_ARMED, GONE_NOTICE, NEW_SESSION_NOTICE, PANEL_TOO_SMALL,
    PASTE_REFUSED, PASTE_UNNUMBERED, QUEUE_DROPPED, QUEUE_REJECTED, RECALL_UNNUMBERED,
    TOOL_DETAIL_BYTES, CLEAR_SCREEN,
};
use xfx::tui::theme::{Depth, Mode, Palette};
use xfx::tui::transaction::{EditTransaction, Span};
use xfx::tui::transcript::Append;
use xfx::tui::worker::Backlog;
use xfx::tui::wrap;

const PALETTE: Palette = Palette {
    mode: Mode::Dark,
    depth: Depth::Ansi256,
};

const INTERRUPT_NOTICE: &str = "xfx: stopping the turn";

/// A band with one composer row, the activity row where `activity`, and `panel`
/// elastic rows.
fn solved(rows: u16, cols: u16, input_rows: u16, activity: bool, panel: u16) -> Option<Geometry> {
    let band = input_rows + 2 + panel + u16::from(activity);
    if band >= rows {
        return None;
    }
    let divider = rows - input_rows - 1;
    Some(Geometry {
        rows,
        cols,
        band_rows: band,
        activity: activity.then_some(divider - panel - 1),
        panel,
        panel_first: divider - panel,
        divider,
        input_first: divider + 1,
        input_rows,
    })
}

/// A shell, and what its neighbours hold.
struct Fixture {
    shell: Shell,
    work: Backlog,
    /// The text the pacer holds.
    paced: String,
    control: Vec<TurnControl>,
    chores: Vec<Chore>,
}

fn shell_for(model: &str, rows: u16, cols: u16) -> Fixture {
    Fixture {
        shell: Shell::new(
            model.to_string(),
            "auto".to_string(),
            ProviderId::Gateway,
            true,
            solved(rows, cols, 1, false, 0).expect("a band"),
            PALETTE,
        ),
        work: Backlog::new(),
        paced: String::new(),
        control: Vec::new(),
        chores: Vec::new(),
    }
}

fn shell(rows: u16, cols: u16) -> Fixture {
    shell_for("a-model", rows, cols)
}

impl Fixture {
    /// The refusal on the hint row, which is painted in its own colour and
    /// leaves the row in the row's.
    fn noticed(&self) -> Option<&'static str> {
        let notice = self.shell.hint().notice?;
        assert_eq!(notice.style, PALETTE.notice());
        assert_eq!(notice.resume, PALETTE.hint());
        Some(notice.text)
    }

    fn did(&mut self, chores: Vec<Chore>) {
        for chore in &chores {
            match chore {
                Chore::Send(message) => self.control.push(*message),
                Chore::ForgetPacing => self.paced.clear(),
                _ => {}
            }
        }
        self.chores = chores;
    }

    fn apply_with(&mut self, event: UiEvent, quoted: &str, fits: bool) {
        if let UiEvent::Delta(text) = &event {
            self.paced.push_str(text);
        }
        let chores = self.shell.apply(event, quoted, fits);
        self.did(chores);
    }

    fn apply(&mut self, event: UiEvent) {
        self.apply_with(event, "", true);
    }

    fn document(&mut self) -> Vec<String> {
        self.shell
            .take_pending()
            .into_iter()
            .flat_map(|append| append.rows)
            .collect()
    }

    fn flush(&mut self) {
        let all = std::mem::take(&mut self.paced);
        if all.is_empty() {
            self.shell.flush_paced(None);
        } else {
            self.shell.flush_paced(Some(&all));
        }
    }

    fn released(&mut self) -> Vec<String> {
        self.flush();
        self.document()
    }

    /// Releases the next `count` bytes of the answer.
    fn pace(&mut self, count: usize) {
        let chunk: String = self.paced.drain(..count).collect();
        self.shell.pace(Some(&chunk), count);
    }

    fn submit_prompt(&mut self, text: &str) {
        let chores = self.shell.submit(
            text,
            Submitted::Prompt(text.trim().to_string()),
            None,
            &mut self.work,
            false,
        );
        self.did(chores);
    }

    fn picks_up(&mut self) -> TurnWork {
        self.work.took().expect("the runtime had work to take")
    }

    fn interrupt(&mut self, meaning: Interrupt, empty: bool) {
        let chores = self.shell.interrupt(meaning, INTERRUPT_NOTICE, &self.work, empty);
        self.did(chores);
    }

    /// A key at the question that is up, answered like this.
    fn answer(&mut self, input: Input, answered: Option<ApprovalAnswer>) {
        assert_eq!(self.shell.consume(input), Route::Question);
        match self.shell.put_to_question(input) {
            Asks::Key(key) => {
                let chores = self.shell.decide(key, answered);
                self.did(chores);
            }
            other => panic!("the question has no binding for it: {other:?}"),
        }
    }
}

fn entry(name: &str, window: Option<u64>, efforts: &[&str]) -> CatalogEntry {
    CatalogEntry {
        id: format!("vendor/{name}"),
        aliases: vec![name.to_string()],
        preferred: name.to_string(),
        efforts: efforts.iter().map(|effort| effort.to_string()).collect(),
        max_context: window,
    }
}

#[test]
fn a_session_that_has_drawn_nothing_owes_a_frame() {
    let mut shell = shell(24, 80);
    let (asked, _) = shell.shell.take_asked();
    assert!(
        asked.first_frame,
        "a fresh session did not ask for its first frame, so the band would appear only once \
         something else changed"
    );
    let (asked, frame) = shell.shell.take_asked();
    assert!(!asked.first_frame && !asked.footer && !asked.resize && !frame);
}

#[test]
fn the_caret_sits_after_the_prompt_marker_on_the_composers_first_row() {
    let shell = shell(24, 80);
    assert_eq!(shell.shell.cursor(0, (0, 0), 0), (23, 2));
}

#[test]
fn answer_text_is_owed_to_the_document_and_asks_for_the_frame_that_follows_it() {
    let mut shell = shell(24, 80);
    let _first = shell.shell.take_asked();
    shell.shell.write_transcript("answered");

    assert!(
        shell.shell.take_asked().1,
        "an append scrolls the band off its own rows and no frame was asked for"
    );
    assert_eq!(
        shell.shell.take_pending(),
        vec![Append {
            scroll: 1,
            rows: vec!["answered".to_string()]
        }]
    );
}

#[test]
fn a_document_write_is_owed_once() {
    let mut shell = shell(24, 80);
    shell.shell.write_transcript("answered");
    assert_eq!(shell.shell.take_pending().len(), 1);
    assert!(shell.shell.take_pending().is_empty());
}

#[test]
fn two_pushes_between_two_frames_are_two_writes_in_order() {
    let mut shell = shell(24, 80);
    shell.shell.write_transcript("first\n");
    shell.shell.write_transcript("second");
    assert_eq!(
        shell.shell.take_pending(),
        vec![
            Append {
                scroll: 2,
                rows: vec!["first".to_string(), String::new()]
            },
            Append {
                scroll: 0,
                rows: vec!["second".to_string()]
            },
        ]
    );
}

#[test]
fn ending_a_line_that_is_already_on_the_screen_owes_nothing_and_asks_for_nothing() {
    let mut shell = shell(24, 80);
    shell.shell.write_transcript("answered");
    shell.shell.take_pending();
    let _asked = shell.shell.take_asked();

    shell.shell.end_transcript_line();
    assert!(
        shell.shell.take_pending().is_empty(),
        "a line already on the screen was written again"
    );
    assert!(
        !shell.shell.take_asked().1,
        "a whole-band repaint was asked for by a write that wrote nothing"
    );
}

#[test]
fn the_transcript_wraps_to_the_screen_the_band_was_solved_for() {
    let mut shell = shell(24, 20);
    shell.shell.write_transcript(&"x".repeat(25));
    assert_eq!(
        shell.shell.take_pending(),
        vec![Append {
            scroll: 2,
            rows: vec!["x".repeat(20), "x".repeat(5)]
        }]
    );
}

#[test]
fn writes_given_back_unattempted_go_ahead_of_the_ones_owed_since() {
    let mut shell = shell(24, 80);
    shell.shell.write_transcript("older\n");
    let untried = shell.shell.take_pending();
    assert_eq!(untried.len(), 1, "the fixture owes one write, not a batch");
    shell.shell.write_transcript("newer\n");
    shell.shell.restore_pending(untried);

    assert_eq!(
        shell
            .shell
            .take_pending()
            .into_iter()
            .map(|append| append.rows.first().cloned().unwrap_or_default())
            .collect::<Vec<_>>(),
        vec!["older".to_string(), "newer".to_string()]
    );
}

#[test]
fn submitting_an_empty_composer_writes_nothing_at_all() {
    let mut shell = shell(24, 80);
    let chores = shell
        .shell
        .submit("", Submitted::Blank, None, &mut shell.work, false);
    assert!(chores.is_empty());
    assert!(shell.shell.take_pending().is_empty());
}

#[test]
fn submitting_clears_the_composer_and_leaves_the_text_in_the_document() {
    let mut shell = shell(24, 80);
    let _first = shell.shell.take_asked();
    shell.submit_prompt("ask me");
    assert_eq!(
        shell.chores,
        vec![
            Chore::RecordLine,
            Chore::TakeDraft,
            Chore::ReconcileMenu,
            Chore::Refit,
            Chore::Submitted,
        ],
        "the composer kept the text"
    );
    assert_eq!(
        shell.shell.take_pending(),
        vec![Append {
            scroll: 1,
            rows: vec!["ask me".to_string()],
        }]
    );
    let (asked, frame) = shell.shell.take_asked();
    assert!(
        asked.footer && frame,
        "a submission asked for no frame, so the band would keep showing text the composer no \
         longer holds"
    );
}

#[test]
fn a_submitted_line_is_handed_to_the_runtime_and_echoed_into_the_document() {
    let mut shell = shell(24, 80);
    shell.submit_prompt("say the marker");
    assert_eq!(
        shell.picks_up(),
        TurnWork::Submit("say the marker".to_string()),
        "the composer's text never reached the runtime"
    );
    assert_eq!(shell.document(), vec!["say the marker".to_string()]);
    assert!(
        shell.chores.contains(&Chore::TakeDraft),
        "the composer kept a sent draft"
    );
}

#[test]
fn a_line_with_blank_edges_is_sent_without_them_and_echoed_with_them() {
    let mut shell = shell(24, 80);
    shell.submit_prompt("  ask something ");
    assert_eq!(shell.picks_up(), TurnWork::Submit("ask something".to_string()));
    assert_eq!(shell.document(), vec!["  ask something ".to_string()]);
}

#[test]
fn a_draft_with_blank_edges_sends_the_block_and_the_trimming_both() {
    assert_eq!(
        expanded_prompt(
            "  [Pasted text #1, 2 lines] \n",
            "[Pasted text #1, 2 lines]",
            Some("  one\ntwo \n")
        ),
        "one\ntwo"
    );
    assert_eq!(expanded_prompt(" plain ", "plain", None), "plain");
}

#[test]
fn one_prompt_may_wait_and_the_band_says_that_it_is_waiting() {
    let mut shell = shell(24, 80);
    shell.submit_prompt("first");
    let _first = shell.picks_up();
    shell.submit_prompt("second");
    let _ = shell.shell.take_asked();
    let chores = shell.shell.settle_band(shell.work.queued(), false);
    assert_eq!(chores, vec![Chore::TickActivity, Chore::Pace]);
    assert_eq!(shell.shell.hint().queued, 1);
    assert!(shell.shell.take_asked().0.footer);
    let _ = shell.shell.settle_band(shell.work.queued(), false);
    assert!(
        !shell.shell.take_asked().0.footer,
        "a count that did not change asked for a frame"
    );
}

#[test]
fn a_submission_the_runtime_will_not_take_keeps_the_draft_and_says_so() {
    let mut shell = shell(24, 80);
    shell.submit_prompt("first");
    let _first = shell.picks_up();
    shell.submit_prompt("second");
    let _ = shell.document();

    shell.submit_prompt("third");

    assert!(
        !shell.chores.contains(&Chore::TakeDraft),
        "a refused submission took the draft with it"
    );
    assert_eq!(shell.noticed(), Some(Refusal::Queue.text()));
    assert_eq!(Refusal::Queue.text(), QUEUE_REJECTED);
    assert!(
        shell.document().is_empty(),
        "the refusal was written into the document as well"
    );
    assert_eq!(
        shell.picks_up(),
        TurnWork::Submit("second".to_string()),
        "the queued prompt is the one that was queued"
    );
    assert!(
        shell.work.took().is_none(),
        "the refused prompt reached the runtime anyway"
    );
}

#[test]
fn a_submission_to_a_runtime_that_is_gone_says_that_instead_of_busy() {
    let mut shell = shell(24, 80);
    let chores = shell.shell.submit(
        "anything",
        Submitted::Prompt("anything".to_string()),
        None,
        &mut shell.work,
        true,
    );
    assert_eq!(chores, vec![Chore::RecordLine]);
    assert_eq!(shell.document(), vec![GONE_NOTICE.to_string()]);
}

#[test]
fn a_submitted_line_that_is_only_whitespace_is_consumed_and_sent_nowhere() {
    let mut shell = shell(24, 80);
    let chores = shell
        .shell
        .submit("   ", Submitted::Blank, None, &mut shell.work, false);
    assert!(
        chores.contains(&Chore::TakeDraft),
        "a blank line stayed in the composer"
    );
    assert!(!chores.contains(&Chore::RecordLine));
    assert!(
        shell.document().is_empty(),
        "a blank line reached the document"
    );
    assert!(shell.work.took().is_none(), "a blank line reached the runtime");
}

#[test]
fn a_name_that_is_not_one_of_the_six_is_refused_rather_than_asked() {
    let mut shell = shell(24, 80);
    let chores = shell.shell.submit(
        "/notacommand",
        Submitted::UnknownCommand {
            refusal: "xfx: /notacommand is not an xfx command".to_string(),
        },
        None,
        &mut shell.work,
        false,
    );

    let document = shell.document();
    assert_eq!(document.first().map(String::as_str), Some("/notacommand"));
    assert!(
        document
            .iter()
            .any(|row| row.contains("is not an xfx command")),
        "{document:?}"
    );
    assert!(
        shell.work.took().is_none(),
        "a mistyped command was sent to the model"
    );
    assert!(
        chores.contains(&Chore::TakeDraft),
        "the refused line stayed in the composer, so the next one would be typed onto the end of it"
    );
}

#[test]
fn a_command_is_shown_and_consumed_and_then_run() {
    let mut shell = shell(24, 80);
    let chores = shell
        .shell
        .submit("/help", Submitted::Command, None, &mut shell.work, false);
    assert_eq!(
        chores,
        vec![
            Chore::RecordLine,
            Chore::TakeDraft,
            Chore::ReconcileMenu,
            Chore::Refit,
            Chore::Submitted,
            Chore::RunCommand,
        ]
    );
    shell
        .shell
        .help(&["/help  list these commands".to_string(), "/quit  leave".to_string()]);
    assert_eq!(
        shell.document(),
        vec![
            "/help".to_string(),
            "/help  list these commands".to_string(),
            "/quit  leave".to_string()
        ]
    );
}

#[test]
fn model_with_an_argument_reaches_the_runtime_and_model_without_one_reports() {
    let mut shell = shell(24, 80);
    shell
        .shell
        .use_model("second-model", None, &mut shell.work, false);
    assert_eq!(
        shell.picks_up(),
        TurnWork::Model("second-model".to_string()),
        "the model change never reached the thread that owns the session log"
    );
    shell.work.finish();

    shell.shell.use_model("", None, &mut shell.work, false);
    let document = shell.document();
    assert!(
        document
            .iter()
            .any(|row| row.starts_with("[shell] model=second-model")),
        "a bare /model did not report the model in force: {document:?}"
    );
    assert_eq!(
        document.last().map(String::as_str),
        Some("[shell] model=second-model provider=gateway")
    );
    assert_eq!(
        shell.picks_up(),
        TurnWork::Catalog,
        "a bare /model did not ask the runtime to load the catalog"
    );
    assert!(
        shell.work.took().is_none(),
        "a bare /model asked the runtime for more than the catalog"
    );
}

#[test]
fn the_model_in_force_again_reaches_nobody() {
    let mut shell = shell_for("fable", 24, 80);
    shell.shell.use_model("fable", None, &mut shell.work, false);
    assert_eq!(shell.document(), vec!["[shell] model=fable unchanged".to_string()]);
    assert!(shell.work.took().is_none());
}

#[test]
fn a_model_id_the_line_shell_would_refuse_is_refused_here_too() {
    let too_long = "m".repeat(201);
    for (argument, problem, refusal) in [
        (
            "two words",
            "/model takes one model id, with no spaces in it",
            "xfx: /model takes one model id, with no spaces in it",
        ),
        (
            "bad\u{7}id",
            "a model id cannot contain control characters",
            "xfx: a model id cannot contain control characters",
        ),
        (
            too_long.as_str(),
            "that model id is too long",
            "xfx: that model id is too long",
        ),
    ] {
        let mut shell = shell(24, 80);
        let in_force = shell.shell.model().to_string();
        shell
            .shell
            .use_model(argument, Some(problem), &mut shell.work, false);

        assert_eq!(
            shell.document(),
            vec![refusal.to_string()],
            "the refusal is not the line the line shell gives"
        );
        assert!(
            shell.work.took().is_none(),
            "a model id xfx refuses was submitted anyway, and the runtime records what it is given"
        );
        assert_eq!(
            shell.shell.model(),
            in_force,
            "the session is talking to a model it refused"
        );
    }
}

#[test]
fn new_reaches_the_runtime_because_the_conversation_lives_there() {
    let mut shell = shell(24, 80);
    shell.shell.new_session(&mut shell.work, false);
    assert_eq!(shell.picks_up(), TurnWork::New);
    assert_eq!(shell.document(), vec![NEW_SESSION_NOTICE.to_string()]);
}

#[test]
fn clear_forgets_the_rows_it_is_about_to_erase_and_owes_the_erase_itself() {
    let mut shell = shell(24, 80);
    shell.apply(UiEvent::Delta("an answer nobody will see again".to_string()));
    shell.flush();
    let owed = shell.shell.take_pending();
    assert!(!owed.is_empty(), "nothing was owed to begin with");
    shell.shell.restore_pending(owed);
    shell.apply(UiEvent::Delta("and one still being released".to_string()));

    let chores = shell
        .shell
        .submit("/clear", Submitted::Command, None, &mut shell.work, false);
    shell.did(chores);
    let chores = shell.shell.clear_screen();
    shell.did(chores);
    assert_eq!(
        shell.shell.paced_backlog(),
        0,
        "the stream survived the screen it was measured against"
    );

    assert!(shell.shell.take_clearing(), "the screen was never asked to clear");
    assert!(
        !shell.shell.take_clearing(),
        "the clear was owed twice, so it would be written twice"
    );
    assert_eq!(CLEAR_SCREEN, "\u{1b}[H\u{1b}[2J\u{1b}[3J");
    let document = shell.document();
    assert_eq!(
        document,
        vec![CLEARED_NOTICE.to_string()],
        "a row measured against the erased screen survived the clear"
    );

    shell.apply(UiEvent::Delta("the next answer".to_string()));
    shell.flush();
    assert_eq!(
        shell.shell.take_pending(),
        vec![Append {
            scroll: 1,
            rows: vec!["the next answer".to_string()]
        }],
        "the first delta after a clear was written onto a row the clear erased"
    );
}

#[test]
fn the_answer_arrives_as_deltas_and_lands_in_the_document() {
    let mut shell = shell(24, 80);
    shell.apply(UiEvent::Delta("MARKER-TURN-".to_string()));
    shell.apply(UiEvent::Delta("ONE".to_string()));
    shell.apply(UiEvent::TurnEnded { failure: None });

    assert_eq!(
        shell.released().last().map(String::as_str),
        Some("MARKER-TURN-ONE")
    );
}

#[test]
fn a_tool_that_refused_says_so_where_the_user_can_read_it() {
    let mut shell = shell(24, 80);
    shell.apply(UiEvent::ToolStart {
        tool: "write_file".to_string(),
    });
    assert_eq!(shell.chores, vec![Chore::NameTool]);
    shell.apply_with(
        UiEvent::ToolResult {
            tool: "write_file".to_string(),
            ok: false,
            detail: "no approval channel".to_string(),
        },
        "no approval channel",
        true,
    );
    assert_eq!(shell.chores, vec![Chore::Think]);

    assert_eq!(
        shell.document(),
        vec![
            "[tool] write_file running".to_string(),
            "[tool] write_file refused: no approval channel".to_string(),
        ]
    );
    assert_eq!(TOOL_DETAIL_BYTES, 120);
}

#[test]
fn a_tool_that_went_well_says_so() {
    let mut shell = shell(24, 80);
    shell.apply(UiEvent::ToolResult {
        tool: "read_file".to_string(),
        ok: true,
        detail: "nobody reads this".to_string(),
    });
    assert_eq!(shell.document(), vec!["[tool] read_file ok".to_string()]);
}

#[test]
fn two_notices_in_a_row_do_not_put_a_blank_row_between_them() {
    let mut shell = shell(24, 80);
    shell.apply(UiEvent::Notice("first".to_string()));
    shell.apply(UiEvent::Notice("second".to_string()));

    assert_eq!(
        shell.document(),
        vec!["first".to_string(), "second".to_string()]
    );
}

#[test]
fn a_notice_that_lands_mid_answer_gets_a_row_of_its_own() {
    let mut shell = shell(24, 80);
    shell.apply(UiEvent::Delta("half a sentence".to_string()));
    shell.apply(UiEvent::Notice("[tool] read_file ok".to_string()));

    assert_eq!(
        shell.released(),
        vec![
            "half a sentence".to_string(),
            "[tool] read_file ok".to_string()
        ],
        "a notice was written into the middle of the answer's row"
    );
}

#[test]
fn a_notice_waits_for_the_answer_it_arrived_behind() {
    let mut shell = shell(24, 80);
    shell.apply(UiEvent::Delta("the first half ".to_string()));
    shell.apply(UiEvent::Notice("[tool] read_file ok".to_string()));
    shell.apply(UiEvent::Delta("and the second".to_string()));
    assert!(
        shell.document().is_empty(),
        "the notice was written before any of the answer was"
    );

    let mut rows = Vec::new();
    while !shell.paced.is_empty() {
        let count = shell.paced.len().min(4);
        shell.pace(count);
        rows.extend(shell.document());
    }
    let notice = rows
        .iter()
        .position(|row| row == "[tool] read_file ok")
        .expect("the notice");
    assert_eq!(
        rows[notice - 1],
        "the first half ",
        "the notice landed before the text it came after: {rows:?}"
    );
    assert_eq!(
        rows.last().map(String::as_str),
        Some("and the second"),
        "the text after the notice was lost or joined to it: {rows:?}"
    );
}

#[test]
fn a_line_of_xfx_s_own_is_written_at_once_while_nothing_is_streaming() {
    let mut shell = shell(24, 80);
    shell.apply(UiEvent::Notice("said at once".to_string()));
    assert_eq!(shell.document(), vec!["said at once".to_string()]);
}

#[test]
fn a_turn_that_failed_says_why_in_the_document() {
    let mut shell = shell(24, 80);
    shell.apply(UiEvent::Delta("part of an answer".to_string()));
    shell.apply(UiEvent::TurnEnded {
        failure: Some("the turn was cancelled".to_string()),
    });
    assert_eq!(
        shell.chores,
        vec![Chore::Rest, Chore::FinishPacing, Chore::TurnEnded]
    );

    assert_eq!(
        shell.released(),
        vec![
            "part of an answer".to_string(),
            "the turn was cancelled".to_string()
        ]
    );
    assert!(!shell.shell.leaving(), "a failed turn ended the session");
    assert_eq!(shell.shell.fatal(), None);
}

#[test]
fn a_fatal_ends_the_session_and_is_remembered_rather_than_painted() {
    let mut shell = shell(24, 80);
    shell.apply(UiEvent::Fatal("a turn panicked".to_string()));

    assert!(shell.shell.leaving(), "a fatal did not end the session");
    assert_eq!(shell.shell.fatal(), Some("a turn panicked"));
    assert_eq!(shell.shell.exit_code(), 0);
    assert!(
        !shell.document().iter().any(|row| row.contains("panicked")),
        "the fatal was painted into a band that is about to be taken down"
    );
}

#[test]
fn a_change_too_big_for_the_band_gives_the_screen_to_the_approval_plane_and_an_answer_gives_it_back(
) {
    let mut shell = shell(24, 80);
    assert_eq!(shell.shell.screen_owner(), ScreenOwner::Primary);

    shell.apply(UiEvent::Approval(ApprovalSurface::Alternate));
    assert_eq!(
        shell.shell.screen_owner(),
        ScreenOwner::Approval,
        "a change the band cannot show was left for the band to show"
    );

    shell.answer(Input::Text('1'), Some(ApprovalAnswer::Once));
    assert_eq!(
        shell.control,
        vec![TurnControl::Answer(ApprovalAnswer::Once)]
    );
    assert_eq!(
        shell.shell.screen_owner(),
        ScreenOwner::Primary,
        "an answered question kept the screen"
    );
}

#[test]
fn a_small_mutation_keeps_the_primary_plane_and_is_asked_in_the_band() {
    let mut shell = shell(24, 80);
    shell.apply(UiEvent::Approval(ApprovalSurface::Inline));
    assert_eq!(shell.chores, vec![Chore::Refit]);
    assert_eq!(shell.shell.screen_owner(), ScreenOwner::Primary);
    assert_eq!(shell.shell.slot(), Some(Slot::Question));
    shell
        .shell
        .refit(1, 1, &[solved(24, 80, 1, false, 8)]);
    assert_eq!(shell.shell.geometry().panel, 8);
    let block: Vec<String> = vec!["Permission needed".to_string(); 8];
    let rows = shell
        .shell
        .band_rows(&block, &[String::new()], 0, 1, "");
    assert!(rows.join("\n").contains("Permission needed"));
    assert_eq!(rows.len(), 11);
}

#[test]
fn an_interrupt_at_a_question_the_approval_plane_owns_gives_the_screen_back_as_well() {
    let mut shell = shell(24, 80);
    shell.submit_prompt("edit the notes");
    let _running = shell.picks_up();
    shell.apply(UiEvent::Approval(ApprovalSurface::Alternate));
    assert_eq!(shell.shell.screen_owner(), ScreenOwner::Approval);

    shell.answer(Input::Action(Action::Cancel), Some(ApprovalAnswer::Deny));
    assert_eq!(shell.chores, vec![Chore::Interrupt, Chore::Refit]);
    shell.interrupt(Interrupt::Cancel, true);

    assert_eq!(shell.shell.screen_owner(), ScreenOwner::Primary);
    assert_eq!(
        shell.control,
        vec![TurnControl::Cancel { through: 1 }],
        "the interrupt was answered instead of being passed on"
    );
}

#[test]
fn a_question_refused_because_it_does_not_fit_never_takes_the_screen() {
    let mut shell = shell(10, 80);
    shell.apply_with(UiEvent::Approval(ApprovalSurface::Alternate), "", false);

    assert_eq!(shell.shell.screen_owner(), ScreenOwner::Primary);
    assert_eq!(
        shell.control,
        vec![TurnControl::Answer(ApprovalAnswer::Deny)]
    );
    assert_eq!(shell.released(), vec![PANEL_TOO_SMALL.to_string()]);
}

#[test]
fn a_screen_too_small_to_show_the_question_refuses_it_and_says_so() {
    let mut shell = shell(10, 80);
    shell.apply_with(UiEvent::Approval(ApprovalSurface::Inline), "", false);

    assert_eq!(shell.shell.geometry().panel, 0);
    assert_eq!(
        shell.control,
        vec![TurnControl::Answer(ApprovalAnswer::Deny)]
    );
    assert_eq!(shell.released(), vec![PANEL_TOO_SMALL.to_string()]);
    assert_eq!(shell.shell.slot(), None);
}

#[test]
fn an_answered_question_leaves_nothing_composing_for_the_other_plane() {
    let mut shell = shell(24, 80);
    shell.apply(UiEvent::Approval(ApprovalSurface::Alternate));
    let rows = vec!["a change".to_string()];
    assert!(
        !shell.shell.screen_rows(rows.clone()).is_empty(),
        "nothing was installed"
    );
    assert_eq!(shell.shell.screen_cursor((7, 3)), (7, 3));

    shell.answer(Input::Text('1'), Some(ApprovalAnswer::Once));

    assert_eq!(
        shell.control,
        vec![TurnControl::Answer(ApprovalAnswer::Once)]
    );
    assert_eq!(shell.shell.screen_owner(), ScreenOwner::Primary);
    assert!(
        shell.shell.screen_rows(rows).is_empty(),
        "an answered question is still composing rows for the other plane"
    );
    assert_eq!(shell.shell.screen_cursor((7, 3)), (1, 0));
}

#[test]
fn an_exit_can_give_the_other_plane_back_without_answering_the_question() {
    let mut shell = shell(24, 80);
    shell.apply(UiEvent::Approval(ApprovalSurface::Alternate));
    assert_eq!(shell.shell.screen_owner(), ScreenOwner::Approval);

    shell.shell.release_screen();

    assert_eq!(shell.shell.screen_owner(), ScreenOwner::Primary);
    assert!(
        shell
            .shell
            .screen_rows(vec!["a change".to_string()])
            .is_empty(),
        "the plane was given back and the surface is still composing rows"
    );
    assert!(
        shell.control.is_empty(),
        "the exit answered a question on the user's behalf"
    );
}

#[test]
fn a_change_longer_than_the_screen_can_be_walked_from_the_question() {
    let mut shell = shell(24, 80);
    shell.apply(UiEvent::Approval(ApprovalSurface::Alternate));
    assert_eq!(
        shell
            .shell
            .put_to_question(Input::Action(Action::HistoryNext)),
        Asks::Scroll { back: false }
    );
    assert!(
        shell.control.is_empty(),
        "walking the change answered the question"
    );
    assert_eq!(
        shell
            .shell
            .put_to_question(Input::Action(Action::HistoryPrevious)),
        Asks::Scroll { back: true }
    );
    assert_eq!(shell.shell.screen_owner(), ScreenOwner::Approval);
}

#[test]
fn a_question_in_the_band_has_nothing_to_scroll() {
    let mut shell = shell(24, 80);
    shell.apply(UiEvent::Approval(ApprovalSurface::Inline));
    assert_eq!(
        shell
            .shell
            .put_to_question(Input::Action(Action::HistoryNext)),
        Asks::Nothing
    );
}

#[test]
fn escape_at_a_question_refuses_it_rather_than_arming_the_clear() {
    let mut shell = shell(24, 80);
    shell.apply(UiEvent::Approval(ApprovalSurface::Inline));
    shell.answer(Input::Action(Action::Escape), Some(ApprovalAnswer::Deny));
    assert_eq!(
        shell.control,
        vec![TurnControl::Answer(ApprovalAnswer::Deny)]
    );
    assert!(!shell.shell.asking());
}

#[test]
fn a_keystroke_the_question_has_no_binding_for_reaches_nothing_at_all() {
    let mut shell = shell(24, 80);
    shell.apply(UiEvent::Approval(ApprovalSurface::Inline));
    for input in [
        Input::Action(Action::Eof),
        Input::Action(Action::Left),
        Input::PasteByte(0x03),
    ] {
        assert_eq!(shell.shell.consume(input), Route::Question);
        assert_eq!(shell.shell.put_to_question(input), Asks::Nothing);
    }
    assert!(!shell.shell.leaving(), "a keystroke leaked past the question");
    assert!(shell.shell.asking());
}

#[test]
fn a_marker_that_moved_is_a_frame_and_no_answer() {
    let mut shell = shell(24, 80);
    shell.apply(UiEvent::Approval(ApprovalSurface::Inline));
    let _ = shell.shell.take_asked();
    let chores = shell.shell.decide(PanelKey::Down, None);
    assert!(chores.is_empty());
    assert!(shell.shell.asking());
    assert!(shell.shell.take_asked().0.modal);
}

#[test]
fn the_turns_clock_stops_while_the_question_is_up_and_starts_again_after_it() {
    let mut shell = shell(24, 80);
    assert_eq!(
        shell.shell.tick_activity(true, false, false, 2),
        vec![Chore::BeginClock, Chore::ThawClock]
    );
    shell.apply(UiEvent::Approval(ApprovalSurface::Alternate));
    assert_eq!(
        shell.shell.tick_activity(true, true, true, 2),
        vec![Chore::FreezeClock]
    );
    shell.answer(Input::Text('2'), Some(ApprovalAnswer::Always));
    assert_eq!(
        shell.shell.tick_activity(true, true, false, 2),
        vec![Chore::ThawClock]
    );
}

#[test]
fn the_row_asks_for_a_frame_when_it_changes_and_not_on_every_tick() {
    let mut shell = shell(24, 80);
    let _ = shell.shell.take_asked();
    assert_eq!(
        shell.shell.show_activity(Some("Thinking 1s".to_string())),
        vec![Chore::Refit],
        "a row that appeared moves the divider"
    );
    assert!(shell.shell.take_asked().0.animation);
    assert!(shell
        .shell
        .show_activity(Some("Thinking 1s".to_string()))
        .is_empty());
    assert!(!shell.shell.take_asked().0.animation);
    assert!(shell
        .shell
        .show_activity(Some("Thinking 2s".to_string()))
        .is_empty());
    assert!(shell.shell.take_asked().0.animation);
    assert_eq!(shell.shell.show_activity(None), vec![Chore::Refit]);
}

#[test]
fn a_ctrl_c_while_the_runtime_is_working_asks_it_to_stop_and_says_so() {
    let mut shell = shell(24, 80);
    shell.submit_prompt("stream something");
    let _taken = shell.picks_up();
    let _ = shell.document();

    shell.interrupt(Interrupt::Cancel, true);

    assert_eq!(shell.control, vec![TurnControl::Cancel { through: 1 }]);
    assert_eq!(shell.document(), vec![INTERRUPT_NOTICE.to_string()]);
    assert!(!shell.shell.leaving(), "one Ctrl-C ended the session");
}

#[test]
fn an_interrupt_says_that_the_queue_goes_with_the_turn() {
    let mut shell = shell(24, 80);
    shell.submit_prompt("first");
    let _running = shell.picks_up();
    shell.submit_prompt("second");
    let _ = shell.document();

    shell.interrupt(Interrupt::Cancel, true);

    assert_eq!(
        shell.control,
        vec![TurnControl::Cancel { through: 2 }],
        "the interrupt did not reach back over both submissions"
    );
    assert_eq!(
        shell.document(),
        vec![INTERRUPT_NOTICE.to_string(), QUEUE_DROPPED.to_string()]
    );
}

#[test]
fn an_interrupt_with_nothing_waiting_does_not_say_a_queue_was_dropped() {
    let mut shell = shell(24, 80);
    shell.submit_prompt("first");
    let _running = shell.picks_up();
    let _ = shell.document();

    shell.interrupt(Interrupt::Cancel, true);

    assert_eq!(shell.document(), vec![INTERRUPT_NOTICE.to_string()]);
}

#[test]
fn an_interrupt_is_answered_at_once_in_the_middle_of_an_answer() {
    let mut shell = shell(24, 80);
    shell.submit_prompt("first");
    let _running = shell.picks_up();
    let _ = shell.document();
    shell.apply(UiEvent::Delta("text nobody has read yet".to_string()));
    shell.interrupt(Interrupt::Cancel, true);
    assert_eq!(shell.document(), vec![INTERRUPT_NOTICE.to_string()]);
    assert_eq!(shell.released(), vec!["text nobody has read yet".to_string()]);
}

#[test]
fn a_second_ctrl_c_leaves_with_the_status_an_interrupted_process_leaves_with() {
    let mut shell = shell(24, 80);
    shell.submit_prompt("stream something");
    let _taken = shell.picks_up();

    shell.interrupt(Interrupt::Cancel, true);
    shell.interrupt(Interrupt::Leave, true);

    assert!(shell.shell.leaving(), "a second Ctrl-C did not end the session");
    assert_eq!(
        shell.shell.exit_code(),
        130,
        "an interrupted session exited like one that finished"
    );
    shell.apply(UiEvent::Fatal("on the way out".to_string()));
    assert_eq!(shell.shell.exit_code(), 130, "the first reason was not kept");
}

#[test]
fn a_ctrl_c_at_an_idle_prompt_throws_the_draft_away_rather_than_stopping_anything() {
    let mut shell = shell(24, 80);
    shell.interrupt(Interrupt::Clear, false);

    assert!(
        shell.chores.contains(&Chore::TakeDraft),
        "the draft survived a Ctrl-C"
    );
    assert!(
        shell.control.is_empty(),
        "a cancellation was sent with nothing running"
    );
    assert!(!shell.shell.leaving());
    shell.interrupt(Interrupt::Clear, true);
    assert_eq!(shell.chores, vec![Chore::SettleBand]);
}

#[test]
fn a_double_escape_clears_the_composer_and_the_band_warns_before_it_does() {
    let mut shell = shell(24, 80);
    assert_eq!(
        shell.shell.escape(Escape::Armed, false),
        vec![Chore::SettleBand]
    );
    let _ = shell.shell.settle_band(0, true);
    assert_eq!(shell.shell.hint().right, Some(ESCAPE_ARMED));
    let chores = shell.shell.escape(Escape::Clear, false);
    assert!(chores.contains(&Chore::TakeDraft));
    assert!(chores.contains(&Chore::LeaveWalk));
    let _ = shell.shell.settle_band(0, false);
    assert_eq!(shell.shell.hint().right, None);
}

#[test]
fn ctrl_d_leaves_an_empty_composer_and_deletes_from_one_with_text_in_it() {
    let mut shell = shell(24, 80);
    let chores = shell.shell.act(Action::Eof, false);
    assert_eq!(chores[0], Chore::Apply(Action::Delete));
    assert!(!shell.shell.leaving());
    assert!(shell.shell.act(Action::Eof, true).is_empty());
    assert!(shell.shell.leaving());
    assert_eq!(shell.shell.exit_code(), 0);
}

#[test]
fn a_caret_that_moved_asks_for_the_frame_that_moves_it() {
    let mut shell = shell(24, 80);
    let _ = shell.shell.take_asked();
    assert_eq!(
        shell.shell.act(Action::Left, false),
        vec![
            Chore::Apply(Action::Left),
            Chore::ReconcileMenu,
            Chore::Refit
        ]
    );
    assert!(shell.shell.take_asked().0.footer);
}

#[test]
fn a_caret_move_leaves_the_paste_boundary_standing_and_an_edit_takes_it_down() {
    let mut shell = shell(24, 80);
    let boundary = EditTransaction::InsertPaste {
        before: "a".to_string(),
        after: "a[Pasted text #1, 9 lines]".to_string(),
        entity: Span { start: 1, end: 26 },
    };
    let chores = shell.shell.pasted(Pasted::Collapsed {
        before: "a".to_string(),
        after: "a[Pasted text #1, 9 lines]".to_string(),
        entity: Some(Span { start: 1, end: 26 }),
    });
    assert_eq!(chores[0], Chore::LeaveWalk);
    assert_eq!(shell.shell.last_transaction(), Some(&boundary));
    let _ = shell.shell.act(Action::Left, false);
    let _ = shell.shell.climbed(false, Recall::Nothing);
    assert_eq!(shell.shell.last_transaction(), Some(&boundary));
    let _ = shell.shell.act(Action::Backspace, false);
    assert_eq!(shell.shell.last_transaction(), Some(&EditTransaction::Other));
}

#[test]
fn a_paste_with_no_number_left_says_so_and_leaves_the_draft_alone() {
    let mut shell = shell(24, 80);
    assert!(shell
        .shell
        .pasted(Pasted::Refused(Refusal::PasteNumber))
        .is_empty());
    assert_eq!(shell.noticed(), Some(Refusal::PasteNumber.text()));
    assert_eq!(Refusal::PasteNumber.text(), PASTE_UNNUMBERED);
    assert_eq!(shell.shell.last_transaction(), None);
}

#[test]
fn a_paste_past_the_budget_says_so_and_leaves_the_draft_alone() {
    let mut shell = shell(24, 80);
    assert!(shell
        .shell
        .pasted(Pasted::Refused(Refusal::PasteSize))
        .is_empty());
    assert_eq!(Refusal::PasteSize.text(), PASTE_REFUSED);
    assert_eq!(shell.noticed(), Some(Refusal::PasteSize.text()));
}

#[test]
fn an_empty_paste_is_not_an_edit() {
    let mut shell = shell(24, 80);
    let _ = shell.shell.take_asked();
    assert!(shell
        .shell
        .pasted(Pasted::Inline {
            empty: true,
            inserted: false
        })
        .is_empty());
    assert!(!shell.shell.take_asked().0.footer);
    assert_eq!(shell.shell.last_transaction(), None);
}

#[test]
fn a_recall_with_no_numbers_left_hands_back_words_and_says_so() {
    let mut shell = shell(24, 80);
    let (recalled, _) = shell.shell.recall(Recall::Taken { short: true });
    assert!(recalled);
    assert_eq!(shell.noticed(), Some(Refusal::RecallNumber.text()));
    assert_eq!(Refusal::RecallNumber.text(), RECALL_UNNUMBERED);
}

#[test]
fn a_recall_asks_for_the_frame_that_shows_it_and_a_recall_of_nothing_asks_for_none() {
    let mut shell = shell(24, 80);
    let _ = shell.shell.take_asked();
    assert_eq!(shell.shell.recall(Recall::Nothing), (false, Vec::new()));
    assert!(!shell.shell.take_asked().0.footer);
    assert_eq!(
        shell.shell.recall(Recall::Taken { short: false }),
        (true, vec![Chore::ReconcileMenu, Chore::Refit])
    );
    assert!(shell.shell.take_asked().0.footer);
    assert_eq!(
        shell.shell.recall(Recall::Kept { short: false }),
        (false, vec![Chore::LeaveWalk])
    );
}

#[test]
fn the_up_arrow_moves_the_caret_until_the_first_row_and_only_then_walks_back() {
    let mut shell = shell(24, 80);
    assert_eq!(
        shell.shell.act(Action::Up, false),
        vec![
            Chore::Apply(Action::Up),
            Chore::Climb(HistoryStep::Previous)
        ]
    );
    assert_eq!(
        shell.shell.climbed(true, Recall::Taken { short: false }),
        vec![Chore::ReconcileMenu, Chore::Refit]
    );
    assert_eq!(shell.shell.last_transaction(), None, "a move was an edit");
    let _ = shell.shell.climbed(false, Recall::Taken { short: false });
    assert_eq!(shell.shell.last_transaction(), Some(&EditTransaction::Other));
}

#[test]
fn an_arrow_at_the_edge_with_nothing_to_recall_still_asks_for_its_frame() {
    let mut shell = shell(24, 80);
    let _ = shell.shell.take_asked();
    assert_eq!(
        shell.shell.climbed(false, Recall::Nothing),
        vec![Chore::ReconcileMenu, Chore::Refit]
    );
    assert!(shell.shell.take_asked().0.footer);
}

#[test]
fn a_character_the_budget_refuses_changes_nothing() {
    let mut shell = shell(24, 80);
    let _ = shell.shell.take_asked();
    assert!(shell.shell.type_character(false, false).is_empty());
    assert!(shell.shell.type_character(true, false).is_empty());
    assert!(!shell.shell.take_asked().0.footer);
    assert_eq!(
        shell.shell.type_character(true, true),
        vec![Chore::LeaveWalk, Chore::ReconcileMenu, Chore::Refit]
    );
}

#[test]
fn a_menu_takes_the_keys_it_binds_and_no_other() {
    let mut shell = shell(24, 80);
    assert_eq!(
        shell.shell.consume(Input::Action(Action::Up)),
        Route::Act(Action::Up)
    );
    shell.shell.reconcile_picker(true, false, true);
    for action in [
        Action::Up,
        Action::Down,
        Action::Tab,
        Action::Submit,
        Action::Escape,
    ] {
        assert_eq!(
            shell.shell.consume(Input::Action(action)),
            Route::Menu(action)
        );
    }
    assert_eq!(
        shell.shell.consume(Input::Action(Action::Left)),
        Route::Act(Action::Left)
    );
    assert_eq!(shell.shell.consume(Input::Text('h')), Route::Type('h'));
    assert_eq!(
        shell.shell.consume(Input::PasteByte(7)),
        Route::Paste(7)
    );
}

#[test]
fn escape_dismisses_the_menu_without_arming_the_clear_gesture() {
    let mut shell = shell(24, 80);
    shell.shell.reconcile_picker(true, false, true);
    let (taken, chores) = shell
        .shell
        .offer_to_picker(Action::Escape, PickerOutcome::Dismiss);
    assert!(taken);
    assert_eq!(chores, vec![Chore::RememberDismissal, Chore::Refit]);
    assert_eq!(shell.shell.slot(), None);
}

#[test]
fn enter_runs_the_line_rather_than_taking_the_marked_row() {
    let mut shell = shell(24, 80);
    shell.shell.reconcile_picker(true, false, true);
    let (taken, _) = shell
        .shell
        .offer_to_picker(Action::Submit, PickerOutcome::Dismiss);
    assert!(!taken, "the menu swallowed the Return");
    assert_eq!(shell.shell.slot(), None);
}

#[test]
fn tab_completes_the_marked_command_and_closes_the_menu() {
    let mut shell = shell(24, 80);
    shell.shell.reconcile_picker(true, false, true);
    let (taken, chores) = shell
        .shell
        .offer_to_picker(Action::Tab, PickerOutcome::Complete);
    assert!(taken);
    assert_eq!(
        chores,
        vec![
            Chore::TakeDraft,
            Chore::InsertCompletion,
            Chore::RememberDismissal,
            Chore::LeaveWalk,
            Chore::ReconcileMenu,
            Chore::Refit,
        ]
    );
    shell.shell.reconcile_picker(false, false, true);
    assert_eq!(shell.shell.slot(), None);
}

#[test]
fn the_mark_survives_a_keystroke_that_did_not_change_the_word() {
    let mut shell = shell(24, 80);
    shell.shell.reconcile_picker(true, false, true);
    shell.shell.reconcile_picker(true, true, false);
    assert_eq!(shell.shell.slot(), Some(Slot::Menu));
    let (taken, chores) = shell
        .shell
        .offer_to_picker(Action::Down, PickerOutcome::Changed);
    assert!(taken);
    assert!(chores.is_empty());
}

#[test]
fn a_question_takes_the_slot_the_menu_was_using() {
    let mut shell = shell(24, 80);
    shell.shell.reconcile_picker(true, false, true);
    assert_eq!(shell.shell.slot(), Some(Slot::Menu));
    shell.apply(UiEvent::Approval(ApprovalSurface::Inline));
    assert_eq!(
        shell.chores,
        vec![Chore::RememberDismissal, Chore::Refit, Chore::Refit]
    );
    assert_eq!(shell.shell.slot(), Some(Slot::Question));
    shell.shell.refit(1, 1, &[solved(24, 80, 1, false, 8)]);
    assert_eq!(
        shell.shell.cursor(2, (0, 5), 0),
        (16, 0),
        "the caret stayed in the composer"
    );
    shell.answer(Input::Text('3'), Some(ApprovalAnswer::Deny));
    shell.shell.refit(1, 1, &[solved(24, 80, 1, false, 0)]);
    assert_eq!(shell.shell.slot(), None);
    assert_eq!(shell.shell.geometry().panel, 0);
}

#[test]
fn the_slot_never_holds_both_a_question_and_a_menu() {
    let mut shell = shell(24, 80);
    shell.shell.reconcile_picker(true, false, true);
    shell.apply(UiEvent::Approval(ApprovalSurface::Inline));
    assert_eq!(shell.shell.slot(), Some(Slot::Question));
    shell.answer(Input::Text('3'), Some(ApprovalAnswer::Deny));
    assert_eq!(
        shell.shell.slot(),
        None,
        "the menu stood behind the question all along"
    );
}

#[test]
fn zero_by_zero_after_launch_is_no_new_information() {
    let mut shell = shell(40, 100);
    let before = shell.shell.geometry();
    assert_eq!(shell.shell.resize(0, 0, 1, 1, &[None]), Resize::Unchanged);
    assert_eq!(shell.shell.geometry(), before);
    assert_eq!(shell.shell.resize(0, 100, 1, 1, &[None]), Resize::Unchanged);
    assert_eq!(shell.shell.resize(40, 0, 1, 1, &[None]), Resize::Unchanged);
    assert_eq!(shell.shell.geometry(), before);
}

#[test]
fn a_resize_to_the_size_the_screen_already_is_asks_for_nothing() {
    let mut shell = shell(24, 80);
    let _ = shell.shell.take_asked();
    assert_eq!(
        shell
            .shell
            .resize(24, 80, 1, 1, &[solved(24, 80, 1, false, 0)]),
        Resize::Unchanged
    );
    assert!(
        !shell.shell.take_asked().0.resize,
        "a resize to the size the screen already is asked for a frame"
    );
}

#[test]
fn a_resize_asks_for_one_frame_and_names_a_resize_as_the_reason() {
    let mut shell = shell(24, 80);
    let _ = shell.shell.take_asked();
    let wide = solved(30, 100, 1, false, 0);
    assert!(matches!(
        shell.shell.resize(30, 100, 1, 1, &[wide]),
        Resize::Repaint(_)
    ));
    assert!(
        shell.shell.take_asked().0.resize,
        "the band moved and nothing asked for a frame"
    );
}

#[test]
fn a_screen_too_small_for_the_band_keeps_the_question_until_it_grows_again() {
    let mut shell = shell(24, 80);
    shell.apply(UiEvent::Approval(ApprovalSurface::Inline));
    shell.shell.refit(1, 1, &[solved(24, 80, 1, false, 8)]);
    let before = shell.shell.geometry();

    assert_eq!(
        shell.shell.resize(4, 80, 1, 1, &[solved(4, 80, 1, false, 8)]),
        Resize::TooSmall
    );
    assert_eq!(
        shell.shell.geometry(),
        before,
        "the band was solved for a screen that cannot hold one"
    );
    assert!(shell.shell.blind(false));
    assert!(
        shell.control.is_empty(),
        "a window that got smaller answered the question"
    );

    assert!(matches!(
        shell
            .shell
            .resize(24, 80, 1, 1, &[solved(24, 80, 1, false, 8)]),
        Resize::Repaint(_)
    ));
    assert!(!shell.shell.blind(false));
    assert!(shell.shell.blind(true));
    assert_eq!(shell.shell.geometry().panel, 8);
    shell.answer(Input::Text('1'), Some(ApprovalAnswer::Once));
    assert_eq!(
        shell.control,
        vec![TurnControl::Answer(ApprovalAnswer::Once)],
        "the decision no longer reaches the runtime"
    );
}

#[test]
fn the_caret_stays_in_the_composer_across_a_resize() {
    let mut shell = shell(24, 80);
    assert!(matches!(
        shell
            .shell
            .resize(30, 100, 1, 1, &[solved(30, 100, 1, false, 0)]),
        Resize::Repaint(_)
    ));
    let (row, cells) = shell.shell.cursor(0, (0, 5), 0);
    assert_eq!(row, shell.shell.geometry().input_first);
    assert_eq!(cells, 2 + 5);
}

#[test]
fn a_wider_screen_rewraps_the_composer_and_unfinished_tail() {
    let mut shell = shell(24, 40);
    shell
        .shell
        .refit(2, 2, &[solved(24, 40, 1, false, 0), solved(24, 40, 2, false, 0)]);
    assert_eq!(shell.shell.geometry().input_rows, 2);
    let narrow_divider = shell.shell.geometry().divider;
    shell.apply(UiEvent::Delta("y".repeat(50)));
    let _ = shell.released();

    let wide = solved(24, 80, 1, false, 0).expect("a band");
    assert_eq!(
        shell.shell.resize(
            24,
            80,
            1,
            2,
            &[Some(wide), solved(24, 80, 2, false, 0)]
        ),
        Resize::Repaint(wide),
        "a screen that really changed size was reported as no news"
    );
    assert_eq!(shell.shell.geometry().cols, 80);
    assert_eq!(
        shell.shell.geometry().input_rows,
        1,
        "the draft was re-solved against the width it no longer has"
    );
    assert!(
        shell.shell.geometry().divider > narrow_divider,
        "the divider did not move when the composer stopped wrapping"
    );
    shell.apply(UiEvent::Delta("z".to_string()));
    let tail = shell.released();
    assert!(
        tail.iter().all(|row| wrap::width(row) <= 80),
        "the tail was re-wrapped to something other than the screen: {tail:?}"
    );
    assert!(
        !tail.iter().any(|row| row.len() == 40),
        "a row wrapped to the old width survived the resize: {tail:?}"
    );
    assert_eq!(tail, vec![format!("{}z", "y".repeat(50))]);
}

#[test]
fn setup_hands_the_whole_switch_to_the_runtime_and_predicts_nothing() {
    let mut shell = shell(24, 80);
    let before = shell.shell.model().to_string();
    shell
        .shell
        .use_provider(Some(ProviderId::Llmux), "", &mut shell.work, false);
    assert_eq!(shell.picks_up(), TurnWork::Setup(ProviderId::Llmux));
    assert_eq!(
        shell.shell.model(),
        before,
        "the shell changed the model before the runtime had reloaded anything"
    );
    assert_eq!(
        shell.shell.provider(),
        ProviderId::Gateway,
        "the shell changed the provider before the runtime had reloaded anything"
    );
    assert_eq!(shell.document(), vec!["[shell] setting up llmux".to_string()]);
}

#[test]
fn a_setup_argument_that_names_no_provider_never_reaches_the_runtime() {
    let mut shell = shell(24, 80);
    shell.shell.use_provider(
        None,
        "xfx: /setup takes gateway or llmux",
        &mut shell.work,
        false,
    );
    assert!(shell.work.took().is_none());
    assert_eq!(
        shell.document(),
        vec!["xfx: /setup takes gateway or llmux".to_string()]
    );
}

#[test]
fn a_selected_provider_replaces_the_model_the_credential_fact_and_the_catalog() {
    let mut shell = shell_for("old", 24, 80);
    shell.apply(UiEvent::CatalogLoaded {
        provider: ProviderId::Gateway,
        entries: vec![entry("old", Some(100_000), &[])],
    });
    shell.apply(UiEvent::Usage {
        input: Some(50_000),
        output: Some(10),
    });
    assert!(shell.shell.context_meter().is_some(), "the meter was armed");
    assert!(shell.shell.hint().missing_credential);

    shell.apply(UiEvent::ProviderSelected {
        provider: ProviderId::Llmux,
        model: "fable".to_string(),
        missing_credential: false,
    });
    assert_eq!(shell.shell.provider(), ProviderId::Llmux);
    assert_eq!(shell.shell.model(), "fable");
    assert!(!shell.shell.hint().missing_credential);
    assert!(
        shell.shell.catalog_rows().is_empty(),
        "the old provider's catalog survived the switch"
    );
    assert_eq!(
        shell.shell.context_meter(),
        None,
        "the dropped conversation's tokens survived the switch"
    );
    let document = shell.document();
    assert!(
        document
            .iter()
            .any(|row| row.contains("provider=llmux") && row.contains("fresh conversation")),
        "{document:?}"
    );
}

#[test]
fn the_catalog_browser_renders_a_context_and_an_effort_column_per_row() {
    let mut shell = shell(24, 80);
    shell.apply(UiEvent::CatalogLoaded {
        provider: ProviderId::Llmux,
        entries: vec![
            entry("fable", Some(1_000_000), &["low", "high"]),
            entry("plain", None, &[]),
        ],
    });
    assert_eq!(
        shell.document(),
        vec![
            "[shell] catalog=2 shown".to_string(),
            "[shell]   fable context=1000000 efforts=low,high".to_string(),
            "[shell]   plain context=unknown efforts=none".to_string(),
        ]
    );
}

#[test]
fn usage_and_max_context_drive_one_context_meter() {
    let mut shell = shell_for("fable", 24, 80);
    assert_eq!(shell.shell.context_meter(), None, "nothing measured yet");

    shell.apply(UiEvent::CatalogLoaded {
        provider: ProviderId::Llmux,
        entries: vec![entry("fable", Some(200_000), &[])],
    });
    assert_eq!(shell.shell.context_meter(), None);

    let mut bare = shell_for("fable", 24, 80);
    bare.apply(UiEvent::Usage {
        input: Some(12_345),
        output: Some(9),
    });
    assert_eq!(bare.shell.context_meter(), None);

    shell.apply(UiEvent::Usage {
        input: Some(12_345),
        output: Some(9),
    });
    assert_eq!(shell.shell.context_meter(), Some((12_345, 200_000)));
}

#[test]
fn the_meter_counts_the_input_tokens_and_not_the_output_ones() {
    let mut shell = shell_for("fable", 24, 80);
    shell.apply(UiEvent::CatalogLoaded {
        provider: ProviderId::Llmux,
        entries: vec![entry("fable", Some(100_000), &[])],
    });
    shell.apply(UiEvent::Usage {
        input: Some(30_000),
        output: Some(20_000),
    });
    assert_eq!(
        shell.shell.context_meter(),
        Some((30_000, 100_000)),
        "the meter added the output tokens to the input ones"
    );
}

#[test]
fn a_turn_that_published_no_usage_leaves_the_meter_off() {
    let mut shell = shell_for("fable", 24, 80);
    shell.apply(UiEvent::CatalogLoaded {
        provider: ProviderId::Llmux,
        entries: vec![entry("fable", Some(100_000), &[])],
    });
    shell.apply(UiEvent::Usage {
        input: None,
        output: None,
    });
    assert_eq!(shell.shell.context_meter(), None);
}

#[test]
fn the_denominator_follows_the_model_in_force() {
    for (model, meter) in [
        ("small", Some((4_000, 8_000))),
        ("vendor/large", Some((4_000, 900_000))),
        ("absent-from-this-catalog", None),
    ] {
        let mut shell = shell_for(model, 24, 80);
        shell.apply(UiEvent::CatalogLoaded {
            provider: ProviderId::Llmux,
            entries: vec![
                entry("small", Some(8_000), &[]),
                entry("large", Some(900_000), &[]),
            ],
        });
        shell.apply(UiEvent::Usage {
            input: Some(4_000),
            output: None,
        });
        assert_eq!(shell.shell.context_meter(), meter, "{model}");
    }
}

#[test]
fn a_new_session_clears_the_meter_it_measured_and_keeps_the_window() {
    let mut shell = shell_for("fable", 24, 80);
    shell.apply(UiEvent::CatalogLoaded {
        provider: ProviderId::Llmux,
        entries: vec![entry("fable", Some(200_000), &[])],
    });
    shell.apply(UiEvent::Usage {
        input: Some(12_345),
        output: Some(9),
    });
    assert_eq!(shell.shell.context_meter(), Some((12_345, 200_000)));

    shell.shell.new_session(&mut shell.work, false);
    assert_eq!(
        shell.picks_up(),
        TurnWork::New,
        "the conversation drop never reached the thread that owns it"
    );
    assert_eq!(shell.shell.context_meter(), None);
    assert_eq!(
        shell.shell.catalog_rows().len(),
        1,
        "the model's context window was thrown away with the conversation"
    );
    shell.apply(UiEvent::Usage {
        input: Some(7),
        output: None,
    });
    assert_eq!(shell.shell.context_meter(), Some((7, 200_000)));
}

#[test]
fn a_new_session_the_runtime_refused_keeps_the_conversation_and_its_meter() {
    let mut shell = shell_for("fable", 24, 80);
    shell.apply(UiEvent::CatalogLoaded {
        provider: ProviderId::Llmux,
        entries: vec![entry("fable", Some(200_000), &[])],
    });
    shell.apply(UiEvent::Usage {
        input: Some(12_345),
        output: None,
    });

    shell.submit_prompt("first");
    let _first = shell.picks_up();
    shell.submit_prompt("second");
    let _ = shell.document();

    shell.shell.new_session(&mut shell.work, false);
    assert_eq!(
        shell.noticed(),
        Some(Refusal::Queue.text()),
        "the refused /new did not say so on the hint row"
    );
    assert_eq!(
        shell.shell.context_meter(),
        Some((12_345, 200_000)),
        "a /new the runtime refused cleared the meter of a conversation that is still there"
    );
}

#[test]
fn the_hint_row_names_the_authority_a_turn_has() {
    let shell = shell(24, 80);
    let hint = shell.shell.hint();
    assert_eq!(hint.mode, "auto");
    assert_eq!(hint.model, "a-model");
    assert_eq!(hint.notice, None);
}

#[test]
fn an_expansion_keeps_the_whitespace_around_the_draft() {
    assert!(is_expansion("  a [b] c\n", "  a word\nand more c\n"));
    assert!(is_expansion("[b]", ""));
    assert!(is_expansion("", ""));
    assert!(!is_expansion("  a", " a"));
    assert!(!is_expansion("  a", "\t a"));
    assert!(!is_expansion("a \n", "a\n "));
    assert!(!is_expansion("  a  ", "   "));
    assert_eq!(
        expanded_prompt("  a [b]\n", "a [b]", Some("  a pasted\n")),
        "a pasted"
    );
}

#[test]
fn a_key_with_no_question_up_decides_nothing() {
    let mut shell = shell(24, 80);
    let _ = shell.shell.take_asked();
    assert!(shell
        .shell
        .decide(PanelKey::Text('1'), Some(ApprovalAnswer::Once))
        .is_empty());
    assert!(shell
        .shell
        .decide(PanelKey::Cancel, Some(ApprovalAnswer::Deny))
        .is_empty());
    assert!(!shell.shell.take_asked().0.modal);
}

#[test]
fn a_question_in_the_band_can_be_followed_by_another_there() {
    let mut shell = shell(24, 80);
    shell.apply(UiEvent::Approval(ApprovalSurface::Inline));
    shell.apply(UiEvent::Approval(ApprovalSurface::Inline));
    assert_eq!(shell.shell.slot(), Some(Slot::Question));
    assert_eq!(shell.shell.screen_owner(), ScreenOwner::Primary);
    // One that does not fit is refused whatever is up.
    shell.apply_with(UiEvent::Approval(ApprovalSurface::Alternate), "", false);
    assert_eq!(
        shell.control,
        vec![TurnControl::Answer(ApprovalAnswer::Deny)]
    );
    assert_eq!(shell.shell.slot(), Some(Slot::Question));
}

#[test]
fn every_line_but_a_blank_one_is_written_down_before_it_is_consumed() {
    let mut shell = shell(24, 80);
    let recorded = |chores: &[Chore]| chores.first() == Some(&Chore::RecordLine);

    shell.submit_prompt("a prompt");
    assert!(recorded(&shell.chores));
    shell.submit_prompt("queued");
    shell.submit_prompt("refused");
    assert!(
        recorded(&shell.chores),
        "a line the runtime refused was not written down"
    );
    assert!(!shell.chores.contains(&Chore::TakeDraft));

    for submitted in [
        Submitted::Command,
        Submitted::UnknownCommand {
            refusal: "no".to_string(),
        },
    ] {
        let chores = shell
            .shell
            .submit("/word", submitted, None, &mut shell.work, false);
        assert!(recorded(&chores));
        assert!(chores.contains(&Chore::TakeDraft));
    }
    let blank = shell
        .shell
        .submit(" \n", Submitted::Blank, None, &mut shell.work, false);
    assert!(!blank.contains(&Chore::RecordLine));
    assert_eq!(blank[0], Chore::LeaveWalk, "a blank line left the walk open");
}

#[test]
fn whatever_changes_the_text_ends_the_walk_and_whatever_moves_the_caret_does_not() {
    let mut shell = shell(24, 80);
    let ends = |chores: &[Chore]| chores.contains(&Chore::LeaveWalk);

    assert!(ends(&shell.shell.type_character(true, true)));
    for action in [
        Action::Backspace,
        Action::Delete,
        Action::DeleteWordLeft,
        Action::KillToEnd,
        Action::KillToStart,
        Action::Eof,
    ] {
        assert!(ends(&shell.shell.act(action, false)), "{action:?}");
    }
    assert!(ends(&shell.shell.escape(Escape::Clear, false)));
    assert!(ends(&shell.shell.pasted(Pasted::Inline {
        empty: false,
        inserted: true
    })));
    assert!(ends(&shell.shell.pasted(Pasted::Collapsed {
        before: String::new(),
        after: "[block]".to_string(),
        entity: Some(Span { start: 0, end: 7 }),
    })));

    for action in [
        Action::Left,
        Action::Right,
        Action::Home,
        Action::End,
        Action::WordLeft,
        Action::WordRight,
    ] {
        assert!(!ends(&shell.shell.act(action, false)), "{action:?}");
    }
    let (recalled, chores) = shell.shell.recall(Recall::Taken { short: false });
    assert!(recalled);
    assert!(!ends(&chores), "the walk ended itself");
    // A character the budget refuses, or the composer, is no change.
    assert!(shell.shell.type_character(false, true).is_empty());
    assert!(shell.shell.type_character(true, false).is_empty());
}

#[test]
fn every_kind_of_edit_takes_the_boundary_of_a_paste_down() {
    let paste = || Pasted::Collapsed {
        before: String::new(),
        after: "[block]".to_string(),
        entity: Some(Span { start: 0, end: 7 }),
    };
    let edits: [fn(&mut Shell); 5] = [
        |shell| {
            let _ = shell.type_character(true, true);
        },
        |shell| {
            let _ = shell.act(Action::Backspace, false);
        },
        |shell| {
            let _ = shell.act(Action::Eof, false);
        },
        |shell| {
            let _ = shell.clear_composer(false);
        },
        |shell| {
            let _ = shell.recall(Recall::Taken { short: false });
        },
    ];
    for edit in edits {
        let mut shell = shell(24, 80);
        let _ = shell.shell.pasted(paste());
        assert_eq!(
            shell.shell.last_transaction(),
            Some(&EditTransaction::InsertPaste {
                before: String::new(),
                after: "[block]".to_string(),
                entity: Span { start: 0, end: 7 },
            })
        );
        let _ = shell.shell.act(Action::Left, false);
        assert!(matches!(
            shell.shell.last_transaction(),
            Some(EditTransaction::InsertPaste { .. })
        ));
        edit(&mut shell.shell);
        assert_eq!(
            shell.shell.last_transaction(),
            Some(&EditTransaction::Other)
        );
    }
}

#[test]
fn a_refusal_waits_behind_the_answer_and_behind_its_own_echo() {
    let mut shell = shell(24, 80);
    shell.apply(UiEvent::Delta("an answer".to_string()));
    let chores = shell.shell.submit(
        "/typo",
        Submitted::UnknownCommand {
            refusal: "xfx: /typo is not an xfx command".to_string(),
        },
        None,
        &mut shell.work,
        false,
    );
    shell.did(chores);
    shell
        .shell
        .use_model("two words", Some("no spaces"), &mut shell.work, false);
    shell
        .shell
        .use_provider(None, "xfx: usage", &mut shell.work, false);
    assert!(
        shell.document().is_empty(),
        "a refusal was written into the middle of the answer"
    );
    assert_eq!(
        shell.released(),
        vec![
            "an answer".to_string(),
            "/typo".to_string(),
            "xfx: /typo is not an xfx command".to_string(),
            "xfx: no spaces".to_string(),
            "xfx: usage".to_string(),
        ]
    );
}

/// A turn that runs and asks, with the band solved for the question.
fn asking(shell: &mut Fixture) {
    shell.submit_prompt("edit the notes");
    shell.apply(UiEvent::TurnStarted);
    ask_in_the_band(shell);
}

/// The same, with a second prompt waiting behind the turn.
fn asking_with_one_waiting(shell: &mut Fixture) {
    shell.submit_prompt("edit the notes");
    assert_eq!(
        shell.picks_up(),
        TurnWork::Submit("edit the notes".to_string())
    );
    shell.apply(UiEvent::TurnStarted);
    shell.submit_prompt("queued while deciding");
    let _ = shell.shell.settle_band(shell.work.queued(), false);
    assert_eq!(shell.shell.hint().queued, 1, "the prompt was not taken");
    ask_in_the_band(shell);
}

fn ask_in_the_band(shell: &mut Fixture) {
    shell.apply(UiEvent::Approval(ApprovalSurface::Inline));
    assert_eq!(shell.chores, vec![Chore::Refit]);
    shell.shell.refit(1, 1, &[solved(24, 80, 1, true, 8)]);
    let _ = shell.shell.settle_band(shell.work.queued(), false);
    let _ = shell.document();
}

#[test]
fn ctrl_c_at_a_question_is_the_interrupt_it_is_everywhere_else() {
    let mut shell = shell(24, 80);
    asking_with_one_waiting(&mut shell);
    let accepted = shell.work.accepted();

    shell.answer(Input::Action(Action::Cancel), Some(ApprovalAnswer::Deny));
    assert_eq!(
        shell.chores,
        vec![Chore::Interrupt, Chore::Refit],
        "the panel ate the interrupt and answered for it"
    );
    shell.interrupt(Interrupt::Cancel, true);
    shell.shell.refit(1, 1, &[solved(24, 80, 1, true, 0)]);

    assert_eq!(
        shell.control,
        vec![TurnControl::Cancel { through: accepted }],
        "a second message went with it; the prompter answers the question from the cancellation \
         itself"
    );
    let said = shell.released();
    assert!(
        said.contains(&INTERRUPT_NOTICE.to_string()),
        "the interrupt landed silently: {said:?}"
    );
    assert!(
        said.contains(&QUEUE_DROPPED.to_string()),
        "the queue went with it and nobody said so: {said:?}"
    );
    assert_eq!(
        shell.shell.geometry().panel,
        0,
        "the question stayed on the screen"
    );
    assert_eq!(shell.shell.slot(), None);
    assert!(
        !shell.shell.leaving(),
        "one Ctrl-C at a question left the session"
    );
}

#[test]
fn escape_at_a_question_answers_only_the_question_it_is_about() {
    let mut shell = shell(24, 80);
    asking_with_one_waiting(&mut shell);

    shell.answer(Input::Action(Action::Escape), Some(ApprovalAnswer::Deny));
    let _ = shell.shell.settle_band(shell.work.queued(), false);

    assert_eq!(
        shell.control,
        vec![TurnControl::Answer(ApprovalAnswer::Deny)],
        "Esc cancelled the turn as well"
    );
    assert_eq!(
        shell.shell.hint().queued,
        1,
        "Esc dropped the prompt that was waiting"
    );
    assert_eq!(
        shell.picks_up(),
        TurnWork::Submit("queued while deciding".to_string())
    );
}

#[test]
fn a_question_the_approval_plane_owns_still_takes_the_focus_and_every_choice() {
    for (typed, key, answer) in [
        (Input::Text('1'), PanelKey::Text('1'), ApprovalAnswer::Once),
        (Input::Text('2'), PanelKey::Text('2'), ApprovalAnswer::Always),
        (Input::Text('3'), PanelKey::Text('3'), ApprovalAnswer::Deny),
        (
            Input::Action(Action::Escape),
            PanelKey::Escape,
            ApprovalAnswer::Deny,
        ),
    ] {
        let mut shell = shell(24, 80);
        shell.submit_prompt("edit the notes");
        shell.apply(UiEvent::TurnStarted);
        for _ in "a draft".chars() {
            let _ = shell.shell.type_character(true, true);
        }
        shell.apply(UiEvent::Approval(ApprovalSurface::Alternate));
        assert_eq!(shell.shell.screen_owner(), ScreenOwner::Approval);
        assert_eq!(
            shell.shell.screen_cursor((7, 3)),
            (7, 3),
            "the caret left the question"
        );

        assert_eq!(shell.shell.consume(typed), Route::Question);
        assert_eq!(shell.shell.put_to_question(typed), Asks::Key(key));
        let chores = shell.shell.decide(key, Some(answer));
        assert_eq!(
            chores,
            vec![Chore::Send(TurnControl::Answer(answer)), Chore::Refit],
            "{typed:?} did not answer a question the approval plane owns, or fell through into \
             the composer"
        );
        assert_eq!(shell.shell.screen_owner(), ScreenOwner::Primary);
    }
}

#[test]
fn a_question_that_arrives_while_a_prompt_is_queued_is_still_answerable() {
    let mut shell = shell(24, 80);
    asking(&mut shell);
    assert_eq!(
        shell.picks_up(),
        TurnWork::Submit("edit the notes".to_string())
    );

    shell.answer(Input::Text('1'), Some(ApprovalAnswer::Once));

    assert_eq!(
        shell.control,
        vec![TurnControl::Answer(ApprovalAnswer::Once)],
        "the answer went nowhere"
    );
    assert!(
        shell.work.took().is_none(),
        "the answer was sent as work rather than as control"
    );
}

#[test]
fn resize_keeps_the_question_and_its_answer_channel() {
    let mut shell = shell(24, 80);
    asking(&mut shell);
    assert_eq!(shell.shell.geometry().panel, 8);

    assert!(matches!(
        shell
            .shell
            .resize(30, 100, 1, 1, &[solved(30, 100, 1, true, 8)]),
        Resize::Repaint(_)
    ));

    assert_eq!(
        shell.shell.geometry().panel,
        8,
        "the question lost its rows when the screen changed size"
    );
    let block = vec!["Permission needed".to_string(); 8];
    let rows = shell
        .shell
        .band_rows(&block, &[String::new()], 0, 1, "");
    assert!(
        rows.join("\n").contains("Permission needed"),
        "the question is no longer painted: {rows:?}"
    );
    assert!(
        shell.control.is_empty(),
        "the resize answered the question on the user's behalf"
    );
    shell.answer(Input::Text('1'), Some(ApprovalAnswer::Once));
    assert_eq!(
        shell.control,
        vec![TurnControl::Answer(ApprovalAnswer::Once)],
        "the keystroke that answers the question stopped reaching the runtime"
    );
}

/// Submits a line, and writes it down where the session says to.
fn submit_line(shell: &mut Fixture, line: &str, submitted: Submitted, history: &mut Vec<String>) {
    let chores = shell
        .shell
        .submit(line, submitted, None, &mut shell.work, false);
    if chores.contains(&Chore::RecordLine) {
        history.push(line.to_string());
    }
    shell.did(chores);
}

/// What a step back through what was submitted puts into the composer.
fn walked_back_to(shell: &mut Fixture, history: &[String]) -> Option<String> {
    let chores = shell.shell.act(Action::HistoryPrevious, true);
    assert_eq!(chores, vec![Chore::Recall(HistoryStep::Previous)]);
    let line = history.last()?.clone();
    let (recalled, chores) = shell.shell.recall(Recall::Taken { short: false });
    assert!(recalled);
    assert_eq!(chores, vec![Chore::ReconcileMenu, Chore::Refit]);
    Some(line)
}

fn prompt(line: &str) -> Submitted {
    Submitted::Prompt(line.trim().to_string())
}

#[test]
fn a_line_the_runtime_refused_is_still_walked_back_to() {
    let mut shell = shell(24, 80);
    let mut history = Vec::new();
    submit_line(&mut shell, "first", prompt("first"), &mut history);
    let _first = shell.picks_up();
    submit_line(&mut shell, "second", prompt("second"), &mut history);
    let _ = shell.document();
    submit_line(&mut shell, "third", prompt("third"), &mut history);
    assert_eq!(
        shell.noticed(),
        Some(QUEUE_REJECTED),
        "the third line was not refused, so this case proves nothing"
    );
    assert!(
        !shell.chores.contains(&Chore::TakeDraft),
        "a refused submission threw the draft away"
    );
    let chores = shell.shell.act(Action::KillToStart, false);
    assert_eq!(chores[0], Chore::Apply(Action::KillToStart));
    assert_eq!(
        walked_back_to(&mut shell, &history),
        Some("third".to_string())
    );
}

#[test]
fn a_blank_line_is_never_walked_back_to() {
    let mut shell = shell(24, 80);
    let mut history = Vec::new();
    submit_line(&mut shell, "real", prompt("real"), &mut history);
    submit_line(&mut shell, "   ", Submitted::Blank, &mut history);
    assert_eq!(
        walked_back_to(&mut shell, &history),
        Some("real".to_string())
    );
}

#[test]
fn a_submitted_command_is_walked_back_to_like_any_other_line() {
    let mut shell = shell(24, 80);
    let mut history = Vec::new();
    submit_line(&mut shell, "/version", Submitted::Command, &mut history);
    assert_eq!(shell.chores[0], Chore::RecordLine);
    let _echo = shell.document();
    assert_eq!(
        walked_back_to(&mut shell, &history),
        Some("/version".to_string())
    );
}

#[test]
fn every_kind_of_edit_takes_the_paste_boundary_down() {
    for (name, input) in [
        ("a typed character", Input::Text('!')),
        ("a backspace", Input::Action(Action::Backspace)),
        ("a kill to the start", Input::Action(Action::KillToStart)),
        ("a composed newline", Input::Action(Action::InsertNewline)),
        ("a word delete", Input::Action(Action::DeleteWordLeft)),
    ] {
        let mut shell = shell(24, 80);
        let _ = shell.shell.pasted(Pasted::Collapsed {
            before: String::new(),
            after: String::new(),
            entity: Some(Span { start: 0, end: 25 }),
        });
        assert!(
            matches!(
                shell.shell.last_transaction(),
                Some(EditTransaction::InsertPaste { .. })
            ),
            "{name}: the paste did not record a boundary"
        );
        match shell.shell.consume(input) {
            Route::Type(_) => {
                let _ = shell.shell.type_character(true, true);
            }
            Route::Act(action) => {
                let chores = shell.shell.act(action, false);
                if chores.contains(&Chore::Type('\n')) {
                    let _ = shell.shell.type_character(true, true);
                }
            }
            other => panic!("{name} went elsewhere: {other:?}"),
        }
        assert!(
            matches!(
                shell.shell.last_transaction(),
                Some(EditTransaction::Other)
            ),
            "{name} left the paste boundary standing: {:?}",
            shell.shell.last_transaction()
        );
    }
}

#[test]
fn the_blink_is_handed_out_as_it_moves() {
    let mut shell = shell(24, 80);
    assert_eq!(shell.shell.phase(), 0);
    let _ = shell.shell.tick_activity(true, true, true, 2);
    assert_eq!(shell.shell.phase(), 1);
    let _ = shell.shell.tick_activity(true, true, false, 2);
    assert_eq!(shell.shell.phase(), 1);
    let _ = shell.shell.tick_activity(true, true, true, 2);
    assert_eq!(shell.shell.phase(), 0);
}
