//! Output normalizer: raw terminal bytes to the canonical text a terminal
//! viewer would currently show on the last visual line.
//!
//! The steps, in order: decode the bytes as UTF-8 (lossily), remove ANSI CSI
//! sequences (ESC `[`, any run of digits or `;`, one ASCII letter), keep only
//! the segment after the last carriage return, drop the raw control
//! characters BEL, BS and DEL, and strip trailing whitespace.

use vstd::prelude::*;
use crate::codec::{chars_to_string, decode_lossy, spec_lossy};

verus! {

/// The escape character that opens a CSI sequence.
pub open spec fn esc() -> char {
    '\u{1b}'
}

/// A parameter character of a CSI sequence: a decimal digit or `;`.
pub open spec fn is_csi_param(c: char) -> bool {
    c == ';' || ('0' <= c && c <= '9')
}

/// An ASCII letter, which terminates a CSI sequence.
pub open spec fn is_ascii_letter(c: char) -> bool {
    ('a' <= c && c <= 'z') || ('A' <= c && c <= 'Z')
}

/// Length of the run of CSI parameter characters starting at `i`.
pub open spec fn param_run(s: Seq<char>, i: int) -> nat
    decreases s.len() - i,
{
    if 0 <= i < s.len() && is_csi_param(s[i]) {
        1 + param_run(s, i + 1)
    } else {
        0
    }
}

/// If `s` starts with a complete CSI sequence (ESC, `[`, a run of parameter
/// characters, one letter), its length; otherwise `None`.
pub open spec fn csi_prefix_len(s: Seq<char>) -> Option<int> {
    if s.len() >= 3 && s[0] == esc() && s[1] == '[' {
        let p = param_run(s, 2) as int;
        if 2 + p < s.len() && is_ascii_letter(s[2 + p]) {
            Some(2 + p + 1)
        } else {
            None
        }
    } else {
        None
    }
}

/// Small facts about `param_run` needed wherever `csi_prefix_len` is opened:
/// the run stays inside the sequence, covers only parameter characters, and
/// is maximal.
pub proof fn lemma_param_run(s: Seq<char>, i: int)
    requires
        0 <= i <= s.len(),
    ensures
        0 <= param_run(s, i),
        i + param_run(s, i) <= s.len(),
        forall|j: int| i <= j < i + param_run(s, i) ==> is_csi_param(s[j]),
        i + param_run(s, i) < s.len() ==> !is_csi_param(s[i + param_run(s, i)]),
    decreases s.len() - i,
{
    if i < s.len() && is_csi_param(s[i]) {
        lemma_param_run(s, i + 1);
    }
}

/// `s` with every ANSI CSI sequence removed, scanning left to right.
pub open spec fn strip_ansi(s: Seq<char>) -> Seq<char>
    decreases s.len(),
{
    if s.len() == 0 {
        s
    } else {
        match csi_prefix_len(s) {
            Some(k) => strip_ansi(s.skip(k)),
            None => seq![s[0]] + strip_ansi(s.skip(1)),
        }
    }
}

/// The segment of `s` after its last carriage return (all of `s` if there is
/// none): what overwriting a line via `\r` leaves visible.
pub open spec fn cr_last(s: Seq<char>) -> Seq<char>
    decreases s.len(),
{
    if s.len() == 0 {
        s
    } else if s.last() == '\r' {
        Seq::empty()
    } else {
        cr_last(s.drop_last()).push(s.last())
    }
}

/// A character the control filter keeps: everything but BEL, BS and DEL.
pub open spec fn keeps_ctl(c: char) -> bool {
    c != '\u{7}' && c != '\u{8}' && c != '\u{7f}'
}

/// `s` without the raw control characters BEL, BS and DEL.
pub open spec fn filter_ctl(s: Seq<char>) -> Seq<char>
    decreases s.len(),
{
    if s.len() == 0 {
        s
    } else if keeps_ctl(s.last()) {
        filter_ctl(s.drop_last()).push(s.last())
    } else {
        filter_ctl(s.drop_last())
    }
}

/// A whitespace character, as Unicode defines the White_Space property.
pub open spec fn is_space(c: char) -> bool {
    ||| c == ' '
    ||| ('\u{9}' <= c && c <= '\u{d}')
    ||| c == '\u{85}'
    ||| c == '\u{a0}'
    ||| c == '\u{1680}'
    ||| ('\u{2000}' <= c && c <= '\u{200a}')
    ||| c == '\u{2028}'
    ||| c == '\u{2029}'
    ||| c == '\u{202f}'
    ||| c == '\u{205f}'
    ||| c == '\u{3000}'
}

/// `s` without its trailing whitespace.
pub open spec fn trim_end(s: Seq<char>) -> Seq<char>
    decreases s.len(),
{
    if s.len() == 0 {
        s
    } else if is_space(s.last()) {
        trim_end(s.drop_last())
    } else {
        s
    }
}

/// The canonical text for a decoded fragment of the output log.
pub open spec fn normalize_text(s: Seq<char>) -> Seq<char> {
    trim_end(filter_ctl(cr_last(strip_ansi(s))))
}

/// The canonical text for a raw fragment of the output log.
pub open spec fn normalize_bytes(bytes: Seq<u8>) -> Seq<char> {
    normalize_text(spec_lossy(bytes))
}

/// A sequence that ANSI stripping leaves unchanged.
pub open spec fn ansi_fixed(s: Seq<char>) -> bool {
    strip_ansi(s) == s
}

/// A character never occurs in a subrange of a sequence it does not occur in.
proof fn lemma_subrange_no_char(s: Seq<char>, a: int, b: int, c: char)
    requires
        0 <= a <= b <= s.len(),
        !s.contains(c),
    ensures
        !s.subrange(a, b).contains(c),
{
    assert forall|i: int| 0 <= i < s.subrange(a, b).len() implies s.subrange(a, b)[i] != c by {
        assert(s.subrange(a, b)[i] == s[a + i]);
    }
}

/// ANSI stripping introduces no character that was not already present.
proof fn lemma_strip_ansi_no_char(s: Seq<char>, c: char)
    requires
        !s.contains(c),
    ensures
        !strip_ansi(s).contains(c),
    decreases s.len(),
{
    if s.len() == 0 {
    } else {
        match csi_prefix_len(s) {
            Some(k) => {
                lemma_param_run(s, 2);
                lemma_subrange_no_char(s, k, s.len() as int, c);
                lemma_strip_ansi_no_char(s.skip(k), c);
            },
            None => {
                lemma_subrange_no_char(s, 1, s.len() as int, c);
                lemma_strip_ansi_no_char(s.skip(1), c);
                assert forall|i: int| 0 <= i < strip_ansi(s).len() implies strip_ansi(s)[i]
                    != c by {
                    if i == 0 {
                        assert(strip_ansi(s)[0] == s[0]);
                    } else {
                        assert(strip_ansi(s)[i] == strip_ansi(s.skip(1))[i - 1]);
                    }
                }
            },
        }
    }
}

/// The segment after the last carriage return holds no carriage return, and
/// no character that the input lacked.
proof fn lemma_cr_last_clean(s: Seq<char>, c: char)
    ensures
        !cr_last(s).contains('\r'),
        !s.contains(c) ==> !cr_last(s).contains(c),
    decreases s.len(),
{
    if s.len() == 0 {
    } else if s.last() == '\r' {
    } else {
        lemma_cr_last_clean(s.drop_last(), c);
        assert(!s.contains(c) ==> !s.drop_last().contains(c)) by {
            if !s.contains(c) {
                lemma_subrange_no_char(s, 0, s.len() - 1, c);
            }
        }
        assert forall|i: int| 0 <= i < cr_last(s).len() implies cr_last(s)[i] != '\r' by {
            if i < cr_last(s).len() - 1 {
                assert(cr_last(s)[i] == cr_last(s.drop_last())[i]);
            } else {
                assert(cr_last(s)[i] == s.last());
            }
        }
        if !s.contains(c) && c != '\r' {
            assert forall|i: int| 0 <= i < cr_last(s).len() implies cr_last(s)[i] != c by {
                if i < cr_last(s).len() - 1 {
                    assert(cr_last(s)[i] == cr_last(s.drop_last())[i]);
                } else {
                    assert(cr_last(s)[i] == s.last());
                    assert(s.contains(c) <== s.last() == c);
                }
            }
        }
        if !s.contains(c) && c == '\r' {
        }
    }
}

/// On input without a carriage return, the carriage-return collapse is the
/// identity.
proof fn lemma_cr_last_id(s: Seq<char>)
    requires
        !s.contains('\r'),
    ensures
        cr_last(s) == s,
    decreases s.len(),
{
    if s.len() == 0 {
    } else {
        assert(s.last() != '\r') by {
            assert(s.contains('\r') <== s.last() == '\r');
        }
        lemma_subrange_no_char(s, 0, s.len() - 1, '\r');
        lemma_cr_last_id(s.drop_last());
        assert(cr_last(s) =~= s);
    }
}

/// The control filter removes BEL, BS and DEL, introduces nothing, and is the
/// identity when none of the three occurs.
proof fn lemma_filter_ctl_clean(s: Seq<char>, c: char)
    ensures
        !keeps_ctl(c) ==> !filter_ctl(s).contains(c),
        !s.contains(c) ==> !filter_ctl(s).contains(c),
        (forall|i: int| 0 <= i < s.len() ==> keeps_ctl(s[i])) ==> filter_ctl(s) == s,
    decreases s.len(),
{
    if s.len() == 0 {
    } else {
        lemma_filter_ctl_clean(s.drop_last(), c);
        assert(!s.contains(c) ==> !s.drop_last().contains(c)) by {
            if !s.contains(c) {
                lemma_subrange_no_char(s, 0, s.len() - 1, c);
            }
        }
        if keeps_ctl(s.last()) {
            assert forall|i: int| 0 <= i < filter_ctl(s).len() && (!keeps_ctl(c) || !s.contains(
                c,
            )) implies filter_ctl(s)[i] != c by {
                if i < filter_ctl(s).len() - 1 {
                    assert(filter_ctl(s)[i] == filter_ctl(s.drop_last())[i]);
                } else {
                    assert(filter_ctl(s)[i] == s.last());
                    assert(s.contains(c) <== s.last() == c);
                }
            }
        }
        if forall|i: int| 0 <= i < s.len() ==> keeps_ctl(s[i]) {
            assert(forall|i: int|
                0 <= i < s.drop_last().len() ==> keeps_ctl(s.drop_last()[i]));
            assert(keeps_ctl(s.last()));
            assert(filter_ctl(s) =~= s);
        }
    }
}

/// Trimming introduces no character, and leaves nothing to trim: the result
/// is empty or ends in non-whitespace, so trimming it again changes nothing.
proof fn lemma_trim_end_clean(s: Seq<char>, c: char)
    ensures
        !s.contains(c) ==> !trim_end(s).contains(c),
        trim_end(s).len() > 0 ==> !is_space(trim_end(s).last()),
    decreases s.len(),
{
    if s.len() == 0 {
    } else if is_space(s.last()) {
        lemma_trim_end_clean(s.drop_last(), c);
        if !s.contains(c) {
            lemma_subrange_no_char(s, 0, s.len() - 1, c);
        }
    } else {
    }
}

/// Every character of a filtered sequence is printable in the sense of
/// `keeps_ctl`.
proof fn lemma_filter_ctl_all_kept(s: Seq<char>)
    ensures
        forall|i: int| 0 <= i < filter_ctl(s).len() ==> keeps_ctl(#[trigger] filter_ctl(s)[i]),
    decreases s.len(),
{
    if s.len() == 0 {
    } else {
        lemma_filter_ctl_all_kept(s.drop_last());
        if keeps_ctl(s.last()) {
            assert forall|i: int| 0 <= i < filter_ctl(s).len() implies keeps_ctl(
                filter_ctl(s)[i],
            ) by {
                if i < filter_ctl(s).len() - 1 {
                    assert(filter_ctl(s)[i] == filter_ctl(s.drop_last())[i]);
                    assert(keeps_ctl(filter_ctl(s.drop_last())[i]));
                } else {
                    assert(filter_ctl(s)[i] == s.last());
                }
            }
        } else {
            assert forall|i: int| 0 <= i < filter_ctl(s).len() implies keeps_ctl(
                filter_ctl(s)[i],
            ) by {
                assert(filter_ctl(s)[i] == filter_ctl(s.drop_last())[i]);
                assert(keeps_ctl(filter_ctl(s.drop_last())[i]));
            }
        }
    }
}

/// Normalizing is idempotent on any input whose normalized text is free of
/// ANSI sequences.  (Overlapping escapes can splice a new sequence together —
/// stripping `ESC [ ESC [ 3 1 m m` leaves `ESC [ m` — so the proviso cannot
/// be dropped.)
pub proof fn lemma_normalize_text_idempotent(s: Seq<char>)
    requires
        ansi_fixed(normalize_text(s)),
    ensures
        normalize_text(normalize_text(s)) == normalize_text(s),
{
    let u = cr_last(strip_ansi(s));
    let v = filter_ctl(u);
    let t = trim_end(v);
    // t holds no carriage return,
    lemma_cr_last_clean(strip_ansi(s), '\r');
    lemma_filter_ctl_clean(u, '\r');
    lemma_trim_end_clean(v, '\r');
    // none of the filtered control characters,
    lemma_filter_ctl_all_kept(u);
    lemma_trim_end_clean(v, '\u{7}');
    lemma_trim_end_clean(v, '\u{8}');
    lemma_trim_end_clean(v, '\u{7f}');
    assert(!t.contains('\u{7}') && !t.contains('\u{8}') && !t.contains('\u{7f}')) by {
        lemma_filter_ctl_clean(u, '\u{7}');
        lemma_filter_ctl_clean(u, '\u{8}');
        lemma_filter_ctl_clean(u, '\u{7f}');
    }
    // and no trailing whitespace; with `strip_ansi(t) == t` each stage of the
    // second pass is the identity.
    lemma_cr_last_id(t);
    assert(forall|i: int| 0 <= i < t.len() ==> keeps_ctl(t[i])) by {
        assert forall|i: int| 0 <= i < t.len() implies keeps_ctl(t[i]) by {
            assert(t.contains(t[i]));
        }
    }
    lemma_filter_ctl_clean(t, '\u{7}');
    assert(trim_end(t) == t) by {
        lemma_trim_end_clean(v, ' ');
    }
}

/// Stripping never lengthens a sequence, and only the identity keeps the
/// length.
proof fn lemma_strip_ansi_len(s: Seq<char>)
    ensures
        strip_ansi(s).len() <= s.len(),
        strip_ansi(s).len() == s.len() ==> strip_ansi(s) == s,
    decreases s.len(),
{
    if s.len() > 0 {
        match csi_prefix_len(s) {
            Some(k) => {
                lemma_param_run(s, 2);
                lemma_strip_ansi_len(s.skip(k));
            },
            None => {
                lemma_strip_ansi_len(s.skip(1));
                if strip_ansi(s).len() == s.len() {
                    assert(strip_ansi(s.skip(1)) == s.skip(1));
                    assert(strip_ansi(s) =~= s);
                }
            },
        }
    }
}

/// Trimming never lengthens a sequence.
proof fn lemma_trim_end_len(s: Seq<char>)
    ensures
        trim_end(s).len() <= s.len(),
    decreases s.len(),
{
    if s.len() > 0 && is_space(s.last()) {
        lemma_trim_end_len(s.drop_last());
    }
}

/// The proviso of the idempotence law is exact: where the normalized text is
/// not free of ANSI sequences, a second pass shortens it, so normalizing is
/// idempotent at an input exactly when its normalized text is ANSI-free.
pub proof fn lemma_normalize_idempotent_exactly_when(s: Seq<char>)
    ensures
        normalize_text(normalize_text(s)) == normalize_text(s) <==> ansi_fixed(
            normalize_text(s),
        ),
{
    if ansi_fixed(normalize_text(s)) {
        lemma_normalize_text_idempotent(s);
    } else {
        let u = cr_last(strip_ansi(s));
        let v = filter_ctl(u);
        let t = trim_end(v);
        // As in the idempotence proof, the second pass reduces to trimming
        // the stripped text; here stripping makes it strictly shorter.
        lemma_cr_last_clean(strip_ansi(s), '\r');
        lemma_filter_ctl_clean(u, '\r');
        lemma_trim_end_clean(v, '\r');
        lemma_filter_ctl_all_kept(u);
        assert(!t.contains('\u{7}') && !t.contains('\u{8}') && !t.contains('\u{7f}')) by {
            lemma_filter_ctl_clean(u, '\u{7}');
            lemma_filter_ctl_clean(u, '\u{8}');
            lemma_filter_ctl_clean(u, '\u{7f}');
            lemma_trim_end_clean(v, '\u{7}');
            lemma_trim_end_clean(v, '\u{8}');
            lemma_trim_end_clean(v, '\u{7f}');
        }
        assert(!strip_ansi(t).contains('\r')) by {
            lemma_strip_ansi_no_char(t, '\r');
        }
        lemma_cr_last_id(strip_ansi(t));
        assert(filter_ctl(strip_ansi(t)) == strip_ansi(t)) by {
            assert(forall|i: int| 0 <= i < t.len() ==> keeps_ctl(t[i])) by {
                assert forall|i: int| 0 <= i < t.len() implies keeps_ctl(t[i]) by {
                    assert(t.contains(t[i]));
                }
            }
            lemma_strip_ansi_no_char(t, '\u{7}');
            lemma_strip_ansi_no_char(t, '\u{8}');
            lemma_strip_ansi_no_char(t, '\u{7f}');
            assert forall|i: int| 0 <= i < strip_ansi(t).len() implies keeps_ctl(
                strip_ansi(t)[i],
            ) by {
                assert(strip_ansi(t).contains(strip_ansi(t)[i]));
            }
            lemma_filter_ctl_clean(strip_ansi(t), '\u{7}');
        }
        assert(normalize_text(t) == trim_end(strip_ansi(t)));
        lemma_strip_ansi_len(t);
        assert(strip_ansi(t).len() < t.len());
        lemma_trim_end_len(strip_ansi(t));
        assert(normalize_text(t).len() < t.len());
    }
}

/// Normalizing is idempotent at the byte level: feeding the UTF-8 encoding of
/// a normalized text back through the normalizer returns it unchanged, for
/// any raw input whose normalized text is free of ANSI sequences.
pub proof fn lemma_normalize_idempotent(bytes: Seq<u8>)
    requires
        ansi_fixed(normalize_bytes(bytes)),
    ensures
        normalize_bytes(vstd::utf8::encode_utf8(normalize_bytes(bytes))) == normalize_bytes(
            bytes,
        ),
{
    broadcast use vstd::utf8::encode_utf8_valid_utf8;
    broadcast use vstd::utf8::encode_utf8_decode_utf8;

    let t = normalize_bytes(bytes);
    assert(spec_lossy(vstd::utf8::encode_utf8(t)) == t);
    lemma_normalize_text_idempotent(spec_lossy(bytes));
}

/// Whether `c` is a CSI parameter character (executable form).
fn csi_param_char(c: char) -> (r: bool)
    ensures
        r == is_csi_param(c),
{
    c == ';' || ('0' <= c && c <= '9')
}

/// Whether `c` is an ASCII letter (executable form).
fn ascii_letter_char(c: char) -> (r: bool)
    ensures
        r == is_ascii_letter(c),
{
    ('a' <= c && c <= 'z') || ('A' <= c && c <= 'Z')
}

/// Whether `c` is Unicode whitespace (executable form).
pub fn space_char(c: char) -> (r: bool)
    ensures
        r == is_space(c),
{
    c == ' ' || ('\u{9}' <= c && c <= '\u{d}') || c == '\u{85}' || c == '\u{a0}'
        || c == '\u{1680}' || ('\u{2000}' <= c && c <= '\u{200a}') || c == '\u{2028}'
        || c == '\u{2029}' || c == '\u{202f}' || c == '\u{205f}' || c == '\u{3000}'
}

/// Remove every ANSI CSI sequence from `s`.
fn strip_ansi_chars(s: &Vec<char>) -> (r: Vec<char>)
    ensures
        r@ == strip_ansi(s@),
{
    let n = s.len();
    let mut out: Vec<char> = Vec::new();
    let mut i: usize = 0;
    proof {
        assert(s@.skip(0) =~= s@);
        assert(Seq::<char>::empty() + strip_ansi(s@) =~= strip_ansi(s@));
    }
    while i < n
        invariant
            n == s@.len(),
            i <= n,
            out@ + strip_ansi(s@.skip(i as int)) == strip_ansi(s@),
        decreases n - i,
    {
        let ghost rest = s@.skip(i as int);
        if n - i > 2 && s[i] == '\u{1b}' && s[i + 1] == '[' {
            // Measure the run of parameter characters after `ESC [`.
            let mut j: usize = i + 2;
            while j < n && csi_param_char(s[j])
                invariant
                    n == s@.len(),
                    i + 2 <= j <= n,
                    forall|k: int| i + 2 <= k < j ==> is_csi_param(s@[k]),
                decreases n - j,
            {
                j = j + 1;
            }
            proof {
                lemma_param_run(rest, 2);
                // The exec scan found the same maximal run as `param_run`.
                assert(forall|k: int| 2 <= k < j - i ==> is_csi_param(rest[k]));
                assert(j < n ==> !is_csi_param(rest[j - i]));
                lemma_param_run_agrees(rest, 2, j - i - 2);
            }
            if j < n && ascii_letter_char(s[j]) {
                proof {
                    assert(csi_prefix_len(rest) == Some(j - i + 1));
                    assert(strip_ansi(rest) == strip_ansi(rest.skip(j - i + 1)));
                    assert(rest.skip(j - i + 1) =~= s@.skip(j + 1));
                }
                i = j + 1;
            } else {
                proof {
                    assert(csi_prefix_len(rest) is None);
                    assert(strip_ansi(rest) == seq![rest[0]] + strip_ansi(rest.skip(1)));
                    assert(rest.skip(1) =~= s@.skip(i + 1));
                    assert(out@.push(s@[i as int]) + strip_ansi(s@.skip(i + 1))
                        =~= out@ + strip_ansi(rest));
                }
                out.push(s[i]);
                i = i + 1;
            }
        } else {
            proof {
                assert(csi_prefix_len(rest) is None);
                assert(strip_ansi(rest) == seq![rest[0]] + strip_ansi(rest.skip(1)));
                assert(rest.skip(1) =~= s@.skip(i + 1));
                assert(out@.push(s@[i as int]) + strip_ansi(s@.skip(i + 1))
                    =~= out@ + strip_ansi(rest));
            }
            out.push(s[i]);
            i = i + 1;
        }
    }
    proof {
        assert(s@.skip(n as int) =~= Seq::<char>::empty());
        assert(out@ + strip_ansi(s@.skip(n as int)) =~= out@);
    }
    out
}

/// A run of parameter characters of known extent pins down `param_run`.
proof fn lemma_param_run_agrees(s: Seq<char>, i: int, len: int)
    requires
        0 <= i,
        0 <= len,
        i + len <= s.len(),
        forall|k: int| i <= k < i + len ==> is_csi_param(s[k]),
        i + len < s.len() ==> !is_csi_param(s[i + len]),
    ensures
        param_run(s, i) == len,
    decreases len,
{
    if len == 0 {
    } else {
        lemma_param_run_agrees(s, i + 1, len - 1);
    }
}

/// Keep only the segment after the last carriage return.
fn cr_last_chars(s: &Vec<char>) -> (r: Vec<char>)
    ensures
        r@ == cr_last(s@),
{
    let n = s.len();
    let mut out: Vec<char> = Vec::new();
    let mut i: usize = 0;
    while i < n
        invariant
            n == s@.len(),
            i <= n,
            out@ == cr_last(s@.take(i as int)),
        decreases n - i,
    {
        proof {
            assert(s@.take(i + 1 as int).drop_last() =~= s@.take(i as int));
            assert(s@.take(i + 1 as int).last() == s@[i as int]);
        }
        if s[i] == '\r' {
            out = Vec::new();
            proof {
                assert(out@ =~= cr_last(s@.take(i + 1 as int)));
            }
        } else {
            out.push(s[i]);
        }
        i = i + 1;
    }
    proof {
        assert(s@.take(n as int) =~= s@);
    }
    out
}

/// Drop the raw control characters BEL, BS and DEL.
fn filter_ctl_chars(s: &Vec<char>) -> (r: Vec<char>)
    ensures
        r@ == filter_ctl(s@),
{
    let n = s.len();
    let mut out: Vec<char> = Vec::new();
    let mut i: usize = 0;
    while i < n
        invariant
            n == s@.len(),
            i <= n,
            out@ == filter_ctl(s@.take(i as int)),
        decreases n - i,
    {
        proof {
            assert(s@.take(i + 1 as int).drop_last() =~= s@.take(i as int));
            assert(s@.take(i + 1 as int).last() == s@[i as int]);
        }
        let c = s[i];
        if c != '\u{7}' && c != '\u{8}' && c != '\u{7f}' {
            out.push(c);
        }
        i = i + 1;
    }
    proof {
        assert(s@.take(n as int) =~= s@);
    }
    out
}

/// Strip trailing whitespace.
fn trim_end_chars(s: &Vec<char>) -> (r: Vec<char>)
    ensures
        r@ == trim_end(s@),
{
    let mut k = s.len();
    proof {
        assert(s@.take(k as int) =~= s@);
    }
    while k > 0 && space_char(s[k - 1])
        invariant
            k <= s@.len(),
            trim_end(s@) == trim_end(s@.take(k as int)),
        decreases k,
    {
        proof {
            assert(s@.take(k as int).drop_last() =~= s@.take(k - 1 as int));
            assert(s@.take(k as int).last() == s@[k - 1]);
        }
        k = k - 1;
    }
    let mut out: Vec<char> = Vec::new();
    let mut i: usize = 0;
    while i < k
        invariant
            k <= s@.len(),
            i <= k,
            out@ == s@.take(k as int).take(i as int),
        decreases k - i,
    {
        proof {
            assert(s@.take(k as int).take(i + 1 as int) =~= s@.take(i as int).push(s@[i as int]));
            assert(s@.take(i as int) =~= s@.take(k as int).take(i as int));
        }
        out.push(s[i]);
        i = i + 1;
    }
    proof {
        assert(out@ =~= s@.take(k as int));
        // The scan stopped at the last non-whitespace character (or at 0), so
        // the kept prefix is already trimmed.
        if k > 0 {
            assert(s@.take(k as int).last() == s@[k - 1]);
            assert(trim_end(s@.take(k as int)) == s@.take(k as int));
        }
    }
    out
}

/// The normalized text of `s`, over characters.
pub fn normalize_chars(s: &Vec<char>) -> (r: Vec<char>)
    ensures
        r@ == normalize_text(s@),
{
    let stripped = strip_ansi_chars(s);
    let visible = cr_last_chars(&stripped);
    let printable = filter_ctl_chars(&visible);
    trim_end_chars(&printable)
}

/// Process a raw fragment of the output log into its canonical text: what a
/// terminal viewer would currently show on the last visual line.  Total:
/// never fails, whatever the bytes hold.
pub fn process_terminal_output(data: &[u8]) -> (r: String)
    ensures
        r@ == normalize_bytes(data@),
{
    let decoded = decode_lossy(data);
    let chars = crate::codec::str_to_chars(decoded.as_str());
    let normalized = normalize_chars(&chars);
    chars_to_string(&normalized)
}

} // verus!
