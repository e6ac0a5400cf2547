use xfx::tui::bridge::{ApprovalAnswer, ProviderId, TurnControl, TurnWork, UiEvent};
use xfx::tui::worker::{
    concluded, context_record, drained, heard, joined, panic_message, turn_failure, Backlog,
    Caught, Drain, Ended, Heard, Job, Join, Need, Next, Outcome, Payload, Race, Received, Rejected,
    Runtime, DRAIN_DEADLINE_MILLIS, DRAIN_POLL_MILLIS, JOIN_GRACE_MILLIS, NO_RUNTIME, THREAD_NAME,
    UNKNOWN_PANIC, WORK_LIMIT,
};
use xfx::workspace::context::ProjectContext;

fn prompt(text: &str) -> TurnWork {
    TurnWork::Submit(text.to_string())
}

#[test]
fn a_third_submission_is_refused_though_the_channel_is_empty() {
    let mut work = Backlog::new();
    work.submit(prompt("first"), false)
        .expect("an idle runtime takes work");
    assert_eq!(work.took(), Some(prompt("first")), "the loop could not take the work");
    assert!(work.took().is_none(), "this case is only a case while the channel is empty");

    work.submit(prompt("second"), false)
        .expect("one prompt may wait behind the turn that is running");
    assert_eq!(work.queued(), 1, "the band would not have said `queued 1`");

    assert_eq!(
        work.submit(prompt("third"), false),
        Err(Rejected::Busy),
        "a third prompt was accepted with the queue already full"
    );
    assert_eq!(
        work.took(),
        Some(prompt("second")),
        "the queued prompt is the one that was queued"
    );
    assert!(
        work.took().is_none(),
        "the refused prompt was queued anyway, and would run as a surprise"
    );
}

#[test]
fn the_runtime_takes_work_again_once_the_work_it_was_given_is_over() {
    let mut work = Backlog::new();
    work.submit(prompt("first"), false).expect("idle");
    let _taken = work.took().expect("the loop took it");
    work.submit(prompt("second"), false).expect("one may wait");
    let _queued = work.took().expect("the loop took the queued one");
    assert_eq!(work.submit(prompt("third"), false), Err(Rejected::Busy));

    work.finish();

    work.submit(prompt("third"), false)
        .expect("the queue has room again");
    assert_eq!(work.took(), Some(prompt("third")));
}

#[test]
fn what_the_band_says_is_the_number_the_refusal_was_decided_from() {
    let mut work = Backlog::new();
    assert_eq!(work.outstanding(), 0);
    assert_eq!(work.queued(), 0, "an idle session was holding a queue");

    work.submit(prompt("first"), false).expect("idle");
    assert_eq!(work.outstanding(), 1);
    assert_eq!(
        work.queued(),
        0,
        "the prompt being run was counted as one waiting"
    );

    let _taken = work.took().expect("the loop took it");
    work.submit(prompt("second"), false).expect("one may wait");
    assert_eq!(work.outstanding(), WORK_LIMIT);
    assert_eq!(work.queued(), 1);
}

#[test]
fn a_refused_submission_does_not_leave_the_queue_looking_full_for_ever() {
    let mut work = Backlog::new();
    assert_eq!(work.submit(prompt("first"), true), Err(Rejected::Gone));
    assert_eq!(
        work.outstanding(),
        0,
        "a submission that was never taken left a place claimed"
    );
}

#[test]
fn both_of_two_submissions_are_taken_before_the_runtime_has_picked_up_either() {
    let mut work = Backlog::new();
    work.submit(prompt("first"), false)
        .expect("an idle runtime takes work");
    work.submit(prompt("second"), false)
        .expect("one prompt may wait, picked up or not");

    assert_eq!(work.outstanding(), WORK_LIMIT);
    assert_eq!(work.queued(), 1);
    assert_eq!(
        work.submit(prompt("third"), false),
        Err(Rejected::Busy),
        "a third submission was taken with the queue already full"
    );

    assert_eq!(work.took(), Some(prompt("first")));
    assert_eq!(work.took(), Some(prompt("second")));
    assert!(work.took().is_none(), "the refused one was queued");
}

#[test]
fn an_interrupt_drops_the_work_nobody_has_started_and_gives_its_places_back() {
    let mut work = Backlog::new();
    work.submit(prompt("first"), false).expect("idle");
    work.submit(prompt("second"), false).expect("one may wait");

    let through = work.accepted();
    let dropped = work.abandon(through);

    assert_eq!(dropped, 2);
    assert!(
        work.took().is_none(),
        "a prompt survived the interrupt and would start by itself"
    );
    assert_eq!(
        work.outstanding(),
        0,
        "a place claimed for work that will never run was never given back"
    );
    work.submit(prompt("after"), false)
        .expect("the session takes work again once the queue is really empty");
}

#[test]
fn an_interrupt_does_not_eat_the_prompt_the_user_typed_after_it() {
    let mut work = Backlog::new();
    work.submit(prompt("running"), false).expect("idle");
    let _picked_up = work.took().expect("the turn began");

    let through = work.accepted();

    work.submit(prompt("asked after the interrupt"), false)
        .expect("the queue had room");

    let dropped = work.abandon(through);

    assert_eq!(dropped, 0, "the interrupt reached past the keystroke");
    assert_eq!(
        work.took(),
        Some(prompt("asked after the interrupt")),
        "the prompt typed after the interrupt was eaten by it"
    );
}

#[test]
fn the_work_a_turn_is_running_is_already_counted_and_is_not_dropped_twice() {
    let mut work = Backlog::new();
    work.submit(prompt("running"), false).expect("idle");
    let through = work.accepted();
    work.submit(prompt("queued after"), false).expect("one may wait");

    let _running = work.took().expect("the turn began");

    assert_eq!(work.abandon(through), 0);
    assert_eq!(
        work.took(),
        Some(prompt("queued after")),
        "the interrupt spent its allowance on a prompt it was not about"
    );
}

#[test]
fn a_cancellation_mid_turn_drops_the_queue_at_the_moment_it_arrives() {
    let mut work = Backlog::new();
    work.submit(prompt("running"), false).expect("idle");
    let _picked_up = work.took().expect("the turn began");
    work.submit(prompt("queued"), false).expect("one may wait");
    let through = work.accepted();

    let mut race = Race::new();
    let stop = race.hear(Some(TurnControl::Cancel { through }));
    assert_eq!(stop, Some(2), "the cancellation never reached the running turn");
    work.abandon(stop.expect("a stop"));

    assert_eq!(race.ended, Ended::Turn);
    assert_eq!(
        work.outstanding(),
        1,
        "the queued prompt kept its place, so the band still says `queued 1`"
    );
}

#[test]
fn a_submission_to_a_runtime_that_is_gone_is_not_reported_as_a_busy_one() {
    let mut work = Backlog::new();
    assert_eq!(work.submit(prompt("anything"), true), Err(Rejected::Gone));
    work.submit(prompt("first"), false).expect("idle");
    work.submit(prompt("second"), false).expect("one may wait");
    assert_eq!(work.submit(prompt("third"), true), Err(Rejected::Gone));
}

#[test]
fn a_cancellation_reaches_a_turn_that_is_still_running() {
    let mut race = Race::new();
    assert_eq!(race.hear(Some(TurnControl::Cancel { through: 0 })), Some(0));
    assert_eq!(
        race.ended,
        Ended::Turn,
        "a cancelled turn ended the session as well"
    );
    assert!(race.listening);
}

#[test]
fn a_shutdown_mid_turn_stops_the_turn_and_the_loop_behind_it() {
    let mut race = Race::new();
    assert_eq!(
        race.hear(Some(TurnControl::Shutdown)),
        Some(usize::MAX),
        "a shutdown left the turn running"
    );
    assert_eq!(race.ended, Ended::Session);
}

#[test]
fn a_ui_that_dropped_its_sender_is_a_shutdown_and_not_a_spin() {
    let mut race = Race::new();
    assert_eq!(race.hear(None), Some(usize::MAX));
    assert_eq!(race.ended, Ended::Session);
    assert!(!race.listening, "a closed channel is asked again, for ever");
}

#[test]
fn an_answer_to_a_question_nobody_asked_neither_stops_a_turn_nor_ends_it() {
    let mut race = Race::new();
    assert_eq!(
        race.hear(Some(TurnControl::Answer(ApprovalAnswer::Deny))),
        None,
        "a stray answer cancelled the turn"
    );
    assert_eq!(race.ended, Ended::Turn);
    assert!(race.listening);
}

#[test]
fn the_drain_stops_at_the_first_terminal_event_and_not_at_the_last() {
    assert_eq!(drained(Received::Event { concludes: false }), Drain::Again);
    assert_eq!(drained(Received::Event { concludes: true }), Drain::Close);
    assert_eq!(drained(Received::Empty { late: false }), Drain::Sleep);
    assert_eq!(drained(Received::Empty { late: true }), Drain::Close);
    assert!(UiEvent::TurnEnded { failure: None }.is_terminal());
    assert!(UiEvent::Fatal("over".to_string()).is_terminal());
    assert!(!UiEvent::Delta("before".to_string()).is_terminal());
}

#[test]
fn a_drain_whose_runtime_is_already_gone_returns_at_once() {
    assert_eq!(drained(Received::Disconnected), Drain::Close);
    assert_eq!(joined(true, false), Join::Join);
}

#[test]
fn a_thread_that_has_not_finished_is_never_joined() {
    assert_eq!(joined(false, false), Join::Sleep);
    assert_eq!(joined(false, true), Join::Detach);
    assert_eq!(joined(true, true), Join::Join);
}

#[test]
fn the_no_runtime_notice_is_the_crate_s_own_text() {
    assert!(!NO_RUNTIME.is_empty());
    assert!(!NO_RUNTIME.chars().any(char::is_control));
}

#[test]
fn the_constants_of_a_shutdown() {
    assert_eq!(DRAIN_DEADLINE_MILLIS, 2000);
    assert_eq!(JOIN_GRACE_MILLIS, 250);
    assert_eq!(DRAIN_POLL_MILLIS, 2);
    assert_eq!(THREAD_NAME, "xfx-turn");
}

#[test]
fn a_panic_that_carried_text_is_reported_in_the_words_it_panicked_with() {
    assert_eq!(
        panic_message(Payload::Text("a turn panicked".to_string())),
        "a turn panicked"
    );
    assert_eq!(panic_message(Payload::Text("owned words".to_string())), "owned words");
}

#[test]
fn a_panic_that_carried_something_else_is_still_reported() {
    assert_eq!(panic_message(Payload::Other), UNKNOWN_PANIC);
}

#[test]
fn a_turn_that_panicked_takes_the_session_with_it() {
    assert_eq!(
        concluded(Caught::Panicked(Payload::Text("bang".to_string())), Race::new()),
        (UiEvent::Fatal("bang".to_string()), Ended::Session)
    );
    assert_eq!(
        concluded(Caught::Returned(Some("why".to_string())), Race::new()),
        (
            UiEvent::TurnEnded {
                failure: Some("why".to_string())
            },
            Ended::Turn
        )
    );
}

#[test]
fn a_turn_says_why_it_failed() {
    assert_eq!(
        turn_failure(Outcome::NotReady("no provider".to_string())),
        Some("no provider".to_string())
    );
    assert_eq!(
        turn_failure(Outcome::Ran {
            recorder: Some("the log is full".to_string())
        }),
        Some("xfx: the log is full".to_string())
    );
    assert_eq!(turn_failure(Outcome::Ran { recorder: None }), None);
    assert_eq!(
        turn_failure(Outcome::Failed("the model hung up".to_string())),
        Some("the model hung up".to_string())
    );
}

#[test]
fn a_context_with_nothing_in_it_is_recorded_as_nothing() {
    let (sources, bytes) = context_record(&ProjectContext::none());
    assert!(sources.is_empty());
    assert_eq!(bytes, 0);
}

#[test]
fn a_model_change_is_recorded_where_a_resumed_session_will_read_it() {
    let mut runtime = Runtime::new("first-model".to_string());
    runtime.given(Need::Conversation);
    assert_eq!(runtime.model(), "first-model");

    assert_eq!(
        runtime.use_model("second-model".to_string()),
        Some("second-model".to_string())
    );
    assert_eq!(runtime.model(), "second-model");
}

#[test]
fn the_same_model_again_records_nothing() {
    let mut runtime = Runtime::new("same".to_string());
    runtime.given(Need::Conversation);
    assert_eq!(
        runtime.use_model("same".to_string()),
        None,
        "a model that did not change was written to the log anyway"
    );
    assert_eq!(runtime.model(), "same");
}

#[test]
fn a_turn_needs_a_provider_and_then_a_conversation() {
    let mut runtime = Runtime::new("any".to_string());
    assert_eq!(runtime.ready(), Need::Provider);
    runtime.given(Need::Provider);
    assert_eq!(runtime.ready(), Need::Conversation);
    runtime.given(Need::Conversation);
    assert_eq!(runtime.ready(), Need::Nothing);
    runtime.given(Need::Nothing);
    assert_eq!(runtime.ready(), Need::Nothing);
}

#[test]
fn control_is_heard_before_work_is_begun() {
    let mut runtime = Runtime::new("any".to_string());
    let mut work = Backlog::new();
    work.submit(prompt("first"), false).expect("idle");

    assert_eq!(
        runtime.step(&mut work, Some(Some(TurnControl::Cancel { through: 1 }))),
        Next::Wait
    );
    assert_eq!(work.outstanding(), 0);
    assert_eq!(runtime.step(&mut work, None), Next::Wait);
    assert_eq!(
        runtime.step(&mut work, Some(Some(TurnControl::Shutdown))),
        Next::Return
    );
    assert_eq!(runtime.step(&mut work, Some(None)), Next::Return);
    assert_eq!(
        runtime.step(
            &mut work,
            Some(Some(TurnControl::Answer(ApprovalAnswer::Once)))
        ),
        Next::Wait
    );
    assert_eq!(heard(None), Heard::Return);
}

#[test]
fn every_piece_of_work_is_given_its_job() {
    let mut runtime = Runtime::new("first".to_string());
    runtime.given(Need::Provider);
    runtime.given(Need::Conversation);
    for (item, job) in [
        (prompt("ask"), Job::Turn("ask".to_string())),
        (TurnWork::Model("second".to_string()), Job::Record("second".to_string())),
        (TurnWork::New, Job::Forget),
        (TurnWork::Setup(ProviderId::Llmux), Job::Setup(ProviderId::Llmux)),
        (TurnWork::Catalog, Job::Catalog),
    ] {
        let mut work = Backlog::new();
        work.submit(item, false).expect("idle");
        assert_eq!(runtime.step(&mut work, None), Next::Do(job));
        work.finish();
        assert_eq!(work.outstanding(), 0);
    }
    assert_eq!(runtime.ready(), Need::Conversation, "a fresh conversation was not asked for");
}

#[test]
fn a_session_that_leaves_takes_everything_up_to_the_end_of_the_turn() {
    // Eight pieces of the answer and the conclusion behind them, with looks at
    // an empty channel in between and one event more than the turn had.
    let mut arriving: Vec<Option<UiEvent>> = Vec::new();
    for n in 0..8 {
        arriving.push(Some(UiEvent::Delta(format!("d{n}"))));
        arriving.push(None);
    }
    arriving.push(Some(UiEvent::TurnEnded { failure: None }));
    arriving.push(Some(UiEvent::Notice("too late".to_string())));
    let mut seen = Vec::new();
    for look in arriving {
        let received = match look {
            Some(event) => {
                let concludes = event.is_terminal();
                seen.push(event);
                Received::Event { concludes }
            }
            None => Received::Empty { late: false },
        };
        match drained(received) {
            Drain::Again => assert!(matches!(seen.last(), Some(UiEvent::Delta(_)))),
            Drain::Sleep => assert_eq!(received, Received::Empty { late: false }),
            Drain::Close => break,
        }
    }
    assert_eq!(seen.len(), 9);
    assert_eq!(seen.last(), Some(&UiEvent::TurnEnded { failure: None }));
}
