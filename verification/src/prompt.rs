//! Readiness checker: does the output log currently end with the prompt?
//!
//! The caller reads at most the trailing bytes of the output log and hands
//! them here; the check normalizes them and compares the suffix with the
//! prompt, byte for byte.  On a mismatch the exact trailing text is returned,
//! with every control byte rendered in caret notation, so a human can see why
//! the expected prompt is not visible.

use vstd::prelude::*;
use vstd::utf8::encode_utf8;
use crate::codec::chars_to_string;
use crate::normalize::{normalize_bytes, process_terminal_output};

verus! {

/// Whether `p` is a suffix of `s`.
pub open spec fn spec_ends_with(s: Seq<char>, p: Seq<char>) -> bool {
    p.len() <= s.len() && s.skip(s.len() - p.len()) == p
}

/// Whether the text `s` ends with `suffix`, character for character.
pub fn text_ends_with(s: &str, suffix: &str) -> (r: bool)
    ensures
        r == spec_ends_with(s@, suffix@),
{
    let ns = s.unicode_len();
    let np = suffix.unicode_len();
    if np > ns {
        return false;
    }
    let base = ns - np;
    let ghost tail = s@.skip(s@.len() - suffix@.len());
    let mut i: usize = 0;
    while i < np
        invariant
            ns == s@.len(),
            np == suffix@.len(),
            np <= ns,
            base == ns - np,
            tail == s@.skip(s@.len() - suffix@.len()),
            i <= np,
            forall|j: int| 0 <= j < i ==> s@[base + j] == suffix@[j],
        decreases np - i,
    {
        if s.get_char(base + i) != suffix.get_char(i) {
            proof {
                assert(tail[i as int] == s@[base + i]);
            }
            return false;
        }
        i = i + 1;
    }
    proof {
        assert forall|j: int| 0 <= j < tail.len() implies tail[j] == suffix@[j] by {
            assert(tail[j] == s@[base + j]);
        }
        assert(tail =~= suffix@);
    }
    true
}

/// How one byte of trailing text is shown in the diagnostic: control bytes in
/// caret notation, anything else as the character with that code.
pub open spec fn caret_of(b: u8) -> Seq<char> {
    if b <= 26 {
        seq!['^', (((b + 64) as u8) as char)]
    } else if b == 27 {
        seq!['^', '[']
    } else if b == 28 {
        seq!['^', '\\']
    } else if b == 29 {
        seq!['^', ']']
    } else if b == 30 {
        seq!['^', '^']
    } else if b == 31 {
        seq!['^', '_']
    } else if b == 127 {
        seq!['^', '?']
    } else {
        seq![b as char]
    }
}

/// The diagnostic rendering of a byte string: each byte shown as `caret_of`
/// says.
pub open spec fn caret_render(bs: Seq<u8>) -> Seq<char>
    decreases bs.len(),
{
    if bs.len() == 0 {
        Seq::empty()
    } else {
        caret_render(bs.drop_last()) + caret_of(bs.last())
    }
}

/// Render trailing text bytes with control bytes in caret notation.
pub fn render_caret(bs: &[u8]) -> (r: Vec<char>)
    ensures
        r@ == caret_render(bs@),
{
    let n = bs.len();
    let mut out: Vec<char> = Vec::new();
    let mut i: usize = 0;
    while i < n
        invariant
            n == bs@.len(),
            i <= n,
            out@ == caret_render(bs@.take(i as int)),
        decreases n - i,
    {
        proof {
            assert(bs@.take(i + 1 as int).drop_last() =~= bs@.take(i as int));
            assert(bs@.take(i + 1 as int).last() == bs@[i as int]);
        }
        let b = bs[i];
        if b < 32 || b == 127 {
            out.push('^');
            if b <= 26 {
                out.push((b + 64) as char);
            } else if b == 27 {
                out.push('[');
            } else if b == 28 {
                out.push('\\');
            } else if b == 29 {
                out.push(']');
            } else if b == 30 {
                out.push('^');
            } else if b == 31 {
                out.push('_');
            } else {
                out.push('?');
            }
        } else {
            out.push(b as char);
        }
        proof {
            assert(out@ =~= caret_render(bs@.take(i + 1 as int)));
        }
        i = i + 1;
    }
    proof {
        assert(bs@.take(n as int) =~= bs@);
    }
    out
}

/// What the readiness check found: the prompt at the end of the log, or a
/// mismatch together with the rendered trailing text.
pub enum ReadyResult {
    Ready,
    NotReady(String),
}

/// Check whether the trailing bytes of the output log, once normalized, end
/// with the prompt.  On a mismatch the result carries the normalized trailing
/// text with every control byte rendered in caret notation.
///
/// The caller reads the log with a fixed trailing byte budget, so a prompt
/// longer than that budget can never be found even when genuinely present at
/// the end of the log.
pub fn check_prompt_ready(tail: &[u8], prompt: &str) -> (r: ReadyResult)
    ensures
        (r is Ready <==> spec_ends_with(normalize_bytes(tail@), prompt@)),
        r matches ReadyResult::NotReady(d) ==> d@ == caret_render(
            encode_utf8(normalize_bytes(tail@)),
        ),
{
    let content = process_terminal_output(tail);
    if text_ends_with(content.as_str(), prompt) {
        ReadyResult::Ready
    } else {
        let rendered = render_caret(content.as_str().as_bytes());
        ReadyResult::NotReady(chars_to_string(&rendered))
    }
}

/// Whether one poll of the output log sees a new prompt: the log must have
/// grown past the size recorded when the wait began, and the normalized
/// trailing bytes must end with the prompt.
pub open spec fn poll_matches(
    initial_size: u64,
    current_size: u64,
    tail: Seq<u8>,
    prompt: Seq<char>,
) -> bool {
    current_size > initial_size && spec_ends_with(normalize_bytes(tail), prompt)
}

/// What one poll decided.
pub enum PollOutcome {
    /// The log grew and now ends with the prompt: stop at once.
    Matched,
    /// No new prompt yet and attempts remain: sleep and poll again.
    KeepWaiting,
    /// No new prompt and the attempt budget is exhausted: give up.
    TimedOut,
}

/// The wait for a new prompt occurrence, as a state machine.  The caller
/// records the log size, then repeatedly sleeps, re-reads the log's size and
/// trailing bytes, and hands them to `poll` until it answers `Matched` or
/// `TimedOut`.  The attempt budget is a hard upper bound: every poll spends
/// one attempt, growth without a match does not restore any.
pub struct PromptWait {
    /// The log's size when the wait began; only content beyond it counts.
    pub initial_size: u64,
    /// How many polls may still run.
    pub attempts_left: u64,
}

impl PromptWait {
    /// Begin a wait: remember the log's current size and the attempt budget.
    pub fn new(initial_size: u64, max_attempts: u64) -> (r: PromptWait)
        ensures
            r.initial_size == initial_size,
            r.attempts_left == max_attempts,
    {
        PromptWait { initial_size, attempts_left: max_attempts }
    }

    /// One poll: decide from the log's current size and trailing bytes
    /// whether a new prompt occurrence appeared.  Returns `Matched` exactly
    /// when the log grew and the normalized trailing text ends with the
    /// prompt — so the wait stops at the first matching poll; growth alone
    /// never matches, and a poll that exhausts the budget times out.
    pub fn poll(&mut self, current_size: u64, tail: &[u8], prompt: &str) -> (r: PollOutcome)
        requires
            old(self).attempts_left > 0,
        ensures
            final(self).initial_size == old(self).initial_size,
            final(self).attempts_left == old(self).attempts_left - 1,
            (r is Matched <==> poll_matches(
                old(self).initial_size,
                current_size,
                tail@,
                prompt@,
            )),
            (r is TimedOut <==> !poll_matches(
                old(self).initial_size,
                current_size,
                tail@,
                prompt@,
            ) && final(self).attempts_left == 0),
            (r is KeepWaiting <==> !poll_matches(
                old(self).initial_size,
                current_size,
                tail@,
                prompt@,
            ) && final(self).attempts_left > 0),
    {
        self.attempts_left = self.attempts_left - 1;
        if current_size > self.initial_size {
            let content = process_terminal_output(tail);
            if text_ends_with(content.as_str(), prompt) {
                return PollOutcome::Matched;
            }
        }
        if self.attempts_left == 0 {
            PollOutcome::TimedOut
        } else {
            PollOutcome::KeepWaiting
        }
    }
}

/// The stages of one synchronized exchange with a session: confirm the
/// prompt is ready, submit the input, wait for the prompt to reappear, then
/// extract the stanza it delimits.
pub enum CycleStage {
    CheckReady,
    Submit,
    AwaitPrompt,
    Extract,
    Done,
}

/// The next stage of a synchronized exchange, given whether the stage just
/// performed succeeded.  The exchange fails fast: the first failure ends it,
/// and each success moves to the following stage in order.
pub fn cycle_next(stage: &CycleStage, step_ok: bool) -> (r: Option<CycleStage>)
    ensures
        !step_ok ==> r is None,
        step_ok ==> match stage {
            CycleStage::CheckReady => r == Some(CycleStage::Submit),
            CycleStage::Submit => r == Some(CycleStage::AwaitPrompt),
            CycleStage::AwaitPrompt => r == Some(CycleStage::Extract),
            CycleStage::Extract => r == Some(CycleStage::Done),
            CycleStage::Done => r == Some(CycleStage::Done),
        },
{
    if !step_ok {
        return None;
    }
    match stage {
        CycleStage::CheckReady => Some(CycleStage::Submit),
        CycleStage::Submit => Some(CycleStage::AwaitPrompt),
        CycleStage::AwaitPrompt => Some(CycleStage::Extract),
        CycleStage::Extract => Some(CycleStage::Done),
        CycleStage::Done => Some(CycleStage::Done),
    }
}

/// What one poll observed of the output log: its size and its trailing bytes.
pub struct PollView {
    pub size: u64,
    pub tail: Seq<u8>,
}

/// The attempt at which a wait over the given run of observations first sees
/// a new prompt, if any: `None` means every attempt passed without a match,
/// which is a timeout once the budget is spent.
pub open spec fn first_match(initial: u64, prompt: Seq<char>, obs: Seq<PollView>) -> Option<int>
    decreases obs.len(),
{
    if obs.len() == 0 {
        None
    } else if poll_matches(initial, obs[0].size, obs[0].tail, prompt) {
        Some(0)
    } else {
        match first_match(initial, prompt, obs.drop_first()) {
            Some(i) => Some(i + 1),
            None => None,
        }
    }
}

/// A wait during which the log never grows past its initial size matches at
/// no attempt, however many attempts run: with the budget spent, that is a
/// timeout, never an indefinite block.
pub proof fn lemma_wait_no_growth_times_out(initial: u64, prompt: Seq<char>, obs: Seq<PollView>)
    requires
        forall|i: int| 0 <= i < obs.len() ==> (#[trigger] obs[i]).size <= initial,
    ensures
        first_match(initial, prompt, obs) is None,
    decreases obs.len(),
{
    if obs.len() > 0 {
        assert(obs[0].size <= initial);
        assert(forall|i: int|
            0 <= i < obs.drop_first().len() ==> (#[trigger] obs.drop_first()[i]).size
                <= initial);
        lemma_wait_no_growth_times_out(initial, prompt, obs.drop_first());
    }
}

/// The wait succeeds at the first poll whose new trailing content ends with
/// the prompt — even if the log grew at earlier polls without a match — and
/// at no earlier one.
pub proof fn lemma_wait_stops_at_first_match(
    initial: u64,
    prompt: Seq<char>,
    obs: Seq<PollView>,
    i: int,
)
    requires
        first_match(initial, prompt, obs) == Some(i),
    ensures
        0 <= i < obs.len(),
        poll_matches(initial, obs[i].size, obs[i].tail, prompt),
        forall|j: int| 0 <= j < i ==> !poll_matches(
            initial,
            (#[trigger] obs[j]).size,
            obs[j].tail,
            prompt,
        ),
    decreases obs.len(),
{
    if obs.len() > 0 {
        if poll_matches(initial, obs[0].size, obs[0].tail, prompt) {
        } else {
            lemma_wait_stops_at_first_match(initial, prompt, obs.drop_first(), i - 1);
            assert forall|j: int| 0 <= j < i implies !poll_matches(
                initial,
                (#[trigger] obs[j]).size,
                obs[j].tail,
                prompt,
            ) by {
                if j > 0 {
                    assert(obs.drop_first()[j - 1] == obs[j]);
                }
            }
        }
    }
}

} // verus!
