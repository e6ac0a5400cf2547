use xfx::tui::signals::{
    block_owned, handler, install, lift_deaths_keeping_the_stop, pokes, wait_for_input, waited, Handler, Hold, Installed, Mask, Signal, Stage,
    Timeout, Timespec, WaitPlan, WaitRefusal, OWNED, OWNED_DEATHS,
};

const OPEN: Mask = Mask {
    int: false,
    term: false,
    hup: false,
    tstp: false,
};

#[test]
fn every_signal_has_one_owner() {
    assert_eq!(OWNED.len(), 6);
    assert_eq!(handler(Signal::Int), Handler::RestoreAndReraise);
    assert_eq!(handler(Signal::Term), Handler::RestoreAndReraise);
    assert_eq!(handler(Signal::Hup), Handler::RestoreAndReraise);
    assert_eq!(handler(Signal::Tstp), Handler::StopForJobControl);
    assert_eq!(handler(Signal::Cont), Handler::FlagResumed);
    assert_eq!(handler(Signal::Winch), Handler::FlagWinch);
    for signal in OWNED_DEATHS {
        assert!(matches!(
            handler(signal),
            Handler::RestoreAndReraise | Handler::StopForJobControl
        ));
    }
}

#[test]
fn a_session_holds_the_stop_from_the_block_to_its_end() {
    let mut hold = Hold::new(OPEN);
    for stage in [Stage::Block, Stage::EnterRaw, Stage::Install, Stage::Lift] {
        assert!(hold.pass(stage), "{stage:?}");
        assert!(hold.mask.tstp, "{stage:?} let the stop in");
    }
    assert!(!hold.mask.int, "a held death was never let in");
    assert!(hold.pass(Stage::Wait));
    assert!(!hold.mask.tstp, "the wait does not let the stop in");
    assert!(hold.pass(Stage::Wake));
    assert!(hold.mask.tstp);
    assert!(hold.pass(Stage::LetGo));
    assert_eq!(hold.mask, OPEN);
    assert!(!hold.pass(Stage::Release), "the handlers went before the terminal");
    assert!(hold.pass(Stage::Restore));
    assert!(hold.pass(Stage::Release));
    assert!(!hold.installed);
}

#[test]
fn raw_mode_is_not_entered_on_a_terminal_nobody_protects() {
    let mut hold = Hold::new(OPEN);
    assert!(!hold.pass(Stage::EnterRaw));
    assert!(!hold.raw);
    assert!(!hold.pass(Stage::Wait));
}

#[test]
fn a_transition_that_fails_leaves_the_mask_as_it_was_found() {
    let own = Mask { hup: true, ..OPEN };
    let mut hold = Hold::new(own);
    assert!(hold.pass(Stage::Block));
    assert!(hold.pass(Stage::Abandon));
    assert_eq!(hold.mask, own);
}

#[test]
fn a_failed_installation_gives_the_terminal_back_before_the_mask() {
    assert_eq!(install(false, true), Installed::RestoreThenUnblock);
    assert_eq!(install(true, false), Installed::RestoreOnly);
    assert_eq!(install(true, true), Installed::Held);
}

#[test]
fn a_wait_names_one_more_than_its_highest_descriptor() {
    assert_eq!(
        wait_for_input(&[0, 7, 3], None, 1024),
        Ok(WaitPlan {
            count: 8,
            deadline: None
        })
    );
}

#[test]
fn a_wait_on_no_descriptors_is_refused() {
    assert_eq!(wait_for_input(&[], None, 1024), Err(WaitRefusal::NoDescriptors));
    assert_eq!(
        WaitRefusal::NoDescriptors.message(),
        "a wait on no descriptors would never end"
    );
}

#[test]
fn a_descriptor_past_the_set_is_refused() {
    assert!(wait_for_input(&[1023], None, 1024).is_ok());
    assert_eq!(
        wait_for_input(&[0, 1024], None, 1024),
        Err(WaitRefusal::OutOfRange)
    );
    assert_eq!(wait_for_input(&[-1], None, 1024), Err(WaitRefusal::OutOfRange));
    assert_eq!(
        WaitRefusal::OutOfRange.message(),
        "the descriptor is out of range for pselect"
    );
}

#[test]
fn a_timeout_longer_than_the_system_can_count_is_the_longest_it_can() {
    let plan = wait_for_input(
        &[0],
        Some(Timeout {
            seconds: u64::MAX,
            nanos: 8_000_000,
        }),
        1024,
    )
    .expect("a wait");
    assert_eq!(
        plan.deadline,
        Some(Timespec {
            seconds: i64::MAX,
            nanos: 8_000_000
        })
    );
    let plan = wait_for_input(
        &[0],
        Some(Timeout {
            seconds: 3,
            nanos: 5,
        }),
        1024,
    )
    .expect("a wait");
    assert_eq!(
        plan.deadline,
        Some(Timespec {
            seconds: 3,
            nanos: 5
        })
    );
}

#[test]
fn the_systems_answer_says_whether_there_is_something_to_read() {
    assert_eq!(waited(-1), None);
    assert_eq!(waited(0), Some(false));
    assert_eq!(waited(2), Some(true));
}

#[test]
fn a_flag_that_was_set_already_pokes_nobody() {
    assert!(pokes(false, 5));
    assert!(!pokes(true, 5));
    assert!(!pokes(false, -1));
}

#[test]
fn every_signal_whose_default_would_strand_a_raw_terminal_is_in_the_block() {
    assert_eq!(
        block_owned(),
        Mask {
            int: true,
            term: true,
            hup: true,
            tstp: true
        }
    );
    assert_eq!(
        OWNED_DEATHS,
        [Signal::Int, Signal::Term, Signal::Hup, Signal::Tstp]
    );
}

#[test]
fn the_installation_lets_the_deaths_through_and_keeps_holding_the_stop() {
    assert_eq!(
        lift_deaths_keeping_the_stop(OPEN),
        Mask { tstp: true, ..OPEN }
    );
    let mut hold = Hold::new(OPEN);
    for stage in [Stage::Block, Stage::EnterRaw, Stage::Install, Stage::Lift] {
        assert!(hold.pass(stage));
    }
    assert!(hold.mask.tstp, "the stop was let out of the transition");
    assert!(
        !hold.mask.int && !hold.mask.term && !hold.mask.hup,
        "a death was left blocked"
    );
    assert!(hold.pass(Stage::LetGo));
    assert!(!hold.mask.tstp, "the session kept the stop after it ended");
}

#[test]
fn lifting_the_block_puts_the_previous_mask_back_rather_than_an_empty_one() {
    let own = Mask { hup: true, ..OPEN };
    let mut hold = Hold::new(own);
    assert!(hold.pass(Stage::Block));
    assert!(hold.mask.term, "the owned signal was not blocked");
    assert!(hold.mask.hup, "the block replaced the caller's mask");
    assert!(hold.pass(Stage::Abandon));
    assert!(!hold.mask.term, "the block was never lifted");
    assert!(hold.mask.hup, "lifting the block cleared a mask it never set");
    assert_eq!(
        lift_deaths_keeping_the_stop(own),
        Mask { tstp: true, ..own }
    );
}
