use via::prompt::{check_prompt_ready, cycle_next, CycleStage, PollOutcome, PromptWait, ReadyResult};

#[test]
fn ready_when_log_ends_with_prompt() {
    // Trailing whitespace is normalized away, so the prompt to synchronize on
    // carries no trailing space.
    let tail = b"$ ls\nfile\nPROMPT> ";
    assert!(matches!(check_prompt_ready(tail, "PROMPT>"), ReadyResult::Ready));
}

#[test]
fn not_ready_reports_trailing_content() {
    // Content ends in "PROMPT>" without the trailing space the caller
    // expects: not ready, and the diagnostic equals the actual trailing
    // content.
    let tail = b"PROMPT>";
    match check_prompt_ready(tail, "PROMPT> ") {
        ReadyResult::NotReady(diag) => {
            assert_eq!(diag, "PROMPT>");
        },
        ReadyResult::Ready => panic!("must not be ready"),
    }
}

#[test]
fn not_ready_renders_newlines_visibly() {
    let tail = b"still working...\nPROMPT>";
    match check_prompt_ready(tail, "PROMPT> ") {
        ReadyResult::NotReady(diag) => {
            assert_eq!(diag, "still working...^JPROMPT>");
        },
        ReadyResult::Ready => panic!("must not be ready"),
    }
}

#[test]
fn diagnostic_renders_control_bytes_in_caret_notation() {
    let tail = b"a\x01b\x1b[1";
    match check_prompt_ready(tail, "PROMPT>") {
        ReadyResult::NotReady(diag) => {
            // The ESC survives normalization (its sequence never reaches a
            // terminating letter) and shows as ^[ in the diagnostic; 0x01
            // shows as ^A.
            assert_eq!(diag, "a^Ab^[[1");
        },
        ReadyResult::Ready => panic!("must not be ready"),
    }
}

#[test]
fn wait_times_out_without_growth() {
    let mut wait = PromptWait::new(100, 5);
    for attempt in 0..5u32 {
        let outcome = wait.poll(100, b"", "P>");
        if attempt < 4 {
            assert!(matches!(outcome, PollOutcome::KeepWaiting));
        } else {
            assert!(matches!(outcome, PollOutcome::TimedOut));
        }
    }
}

#[test]
fn wait_ignores_growth_without_prompt() {
    let mut wait = PromptWait::new(100, 3);
    assert!(matches!(wait.poll(150, b"partial output", "P>"), PollOutcome::KeepWaiting));
    assert!(matches!(wait.poll(180, b"more output", "P>"), PollOutcome::KeepWaiting));
    assert!(matches!(wait.poll(190, b"still no prompt", "P>"), PollOutcome::TimedOut));
}

#[test]
fn wait_matches_on_first_matching_poll() {
    let mut wait = PromptWait::new(100, 10);
    assert!(matches!(wait.poll(150, b"computing...", "P>"), PollOutcome::KeepWaiting));
    assert!(matches!(wait.poll(200, b"result\nP>", "P>"), PollOutcome::Matched));
}

#[test]
fn wait_needs_growth_even_if_prompt_visible() {
    let mut wait = PromptWait::new(100, 2);
    // The prompt was already there: without growth past the initial size the
    // poll must not match.
    assert!(matches!(wait.poll(100, b"P>", "P>"), PollOutcome::KeepWaiting));
    assert!(matches!(wait.poll(90, b"P>", "P>"), PollOutcome::TimedOut));
}

#[test]
fn cycle_walks_stages_in_order_and_fails_fast() {
    assert!(matches!(cycle_next(&CycleStage::CheckReady, true), Some(CycleStage::Submit)));
    assert!(matches!(cycle_next(&CycleStage::Submit, true), Some(CycleStage::AwaitPrompt)));
    assert!(matches!(cycle_next(&CycleStage::AwaitPrompt, true), Some(CycleStage::Extract)));
    assert!(matches!(cycle_next(&CycleStage::Extract, true), Some(CycleStage::Done)));
    assert!(cycle_next(&CycleStage::CheckReady, false).is_none());
    assert!(cycle_next(&CycleStage::AwaitPrompt, false).is_none());
}
