//! Session directory layout and session listing.
//!
//! A session lives in `<base>/<name>` and holds an input pipe `stdin` and an
//! output log `stdout`.  The base directory is a configuration value the
//! caller resolves once at start; the candidates for it, the paths under it,
//! the line written to the input pipe, and the listing table are all computed
//! here from plain values.

use vstd::prelude::*;
use crate::codec::{chars_to_string, str_to_chars};
use crate::normalize::{is_space, space_char};

verus! {

/// Path of the directory holding one session's files: `<base>/<session>`.
pub fn session_path(base: &str, session: &str) -> (r: String)
    ensures
        r@ == base@ + seq!['/'] + session@,
{
    proof {
        reveal_strlit("/");
    }
    let mut p = String::from_str(base);
    p.append("/");
    p.append(session);
    assert(p@ =~= base@ + seq!['/'] + session@);
    p
}

/// Path of a session's input pipe: `<base>/<session>/stdin`.
pub fn stdin_path(base: &str, session: &str) -> (r: String)
    ensures
        r@ == base@ + seq!['/'] + session@ + "/stdin"@,
{
    let mut p = session_path(base, session);
    p.append("/stdin");
    p
}

/// Path of a session's output log: `<base>/<session>/stdout`.
pub fn stdout_path(base: &str, session: &str) -> (r: String)
    ensures
        r@ == base@ + seq!['/'] + session@ + "/stdout"@,
{
    let mut p = session_path(base, session);
    p.append("/stdout");
    p
}

/// The two candidates for the session base directory, resolved from the
/// environment once at process start: first choice is the override variable
/// or a fixed default; the fallback, should the first be unusable, hangs off
/// the runtime directory or lands under `/tmp`.
pub fn base_dir_candidates(override_dir: &Option<String>, runtime_dir: &Option<String>) -> (r: (
    String,
    String,
))
    ensures
        override_dir matches Some(d) ==> r.0@ == d@,
        override_dir is None ==> r.0@ == "/run/via"@,
        runtime_dir matches Some(x) ==> r.1@ == x@ + "/via"@,
        runtime_dir is None ==> r.1@ == "/tmp/via"@,
{
    let primary = match override_dir {
        Some(d) => d.clone(),
        None => String::from_str("/run/via"),
    };
    let fallback = match runtime_dir {
        Some(x) => {
            let mut f = x.clone();
            f.append("/via");
            f
        },
        None => String::from_str("/tmp/via"),
    };
    (primary, fallback)
}

/// The input lines joined into the single line written to the pipe, the
/// words separated by single spaces.
pub open spec fn join_spaces(a: Seq<Seq<char>>) -> Seq<char>
    decreases a.len(),
{
    if a.len() == 0 {
        Seq::empty()
    } else if a.len() == 1 {
        a[0]
    } else {
        join_spaces(a.drop_last()) + seq![' '] + a.last()
    }
}

/// Join argument words with single spaces, as the write path sends them.
pub fn join_args(args: &Vec<String>) -> (r: String)
    ensures
        r@ == join_spaces(args.deep_view()),
{
    proof {
        reveal_strlit(" ");
    }
    let ghost av = args.deep_view();
    let n = args.len();
    let mut out = String::new();
    let mut i: usize = 0;
    while i < n
        invariant
            av == args.deep_view(),
            n == av.len(),
            i <= n,
            out@ == join_spaces(av.take(i as int)),
        decreases n - i,
    {
        proof {
            assert(av[i as int] == args@[i as int]@);
            assert(av.take(i + 1 as int).drop_last() =~= av.take(i as int));
            assert(av.take(i + 1 as int).last() == av[i as int]);
        }
        if i > 0 {
            out.append(" ");
            proof {
                reveal_strlit(" ");
                assert(" "@ =~= seq![' ']);
            }
        }
        out.append(args[i].as_str());
        proof {
            assert(out@ =~= join_spaces(av.take(i + 1 as int)));
        }
        i = i + 1;
    }
    proof {
        assert(av.take(n as int) =~= av);
    }
    out
}

/// The segment of `s` after its last newline (all of `s` if none).
pub open spec fn after_last_nl(s: Seq<char>) -> Seq<char>
    decreases s.len(),
{
    if s.len() == 0 {
        s
    } else if s.last() == '\n' {
        Seq::empty()
    } else {
        after_last_nl(s.drop_last()).push(s.last())
    }
}

/// A known last-newline position pins down `after_last_nl`.
proof fn lemma_after_last_nl_at(t: Seq<char>, k: int)
    requires
        0 <= k <= t.len(),
        forall|j: int| k <= j < t.len() ==> t[j] != '\n',
        k > 0 ==> t[k - 1] == '\n',
    ensures
        after_last_nl(t) == t.skip(k),
    decreases t.len(),
{
    if t.len() == 0 {
        assert(t.skip(0) =~= t);
    } else if t.last() == '\n' {
        assert(k == t.len());
        assert(t.skip(k) =~= Seq::<char>::empty());
    } else {
        assert(k < t.len());
        lemma_after_last_nl_at(t.drop_last(), k);
        assert(t.drop_last().skip(k) =~= t.skip(k).drop_last());
        assert(after_last_nl(t) =~= t.skip(k));
    }
}

/// The short prompt preview a session listing shows: the last line of the
/// normalized trailing output, shortened to its first 20 characters plus an
/// ellipsis when longer; nothing when that line is empty.
pub open spec fn spec_preview(s: Seq<char>) -> Option<Seq<char>> {
    let t = if s.len() > 0 && s.last() == '\n' {
        s.drop_last()
    } else {
        s
    };
    let l = after_last_nl(t);
    if l.len() > 20 {
        Some(l.take(20) + "..."@)
    } else if l.len() > 0 {
        Some(l)
    } else {
        None
    }
}

/// The prompt preview of a normalized trailing fragment of the output log.
pub fn prompt_preview(content: &str) -> (r: Option<String>)
    ensures
        r is Some <==> spec_preview(content@) is Some,
        r matches Some(p) ==> Some(p@) == spec_preview(content@),
{
    let chars = str_to_chars(content);
    let n = chars.len();
    let end = if n > 0 && chars[n - 1] == '\n' {
        n - 1
    } else {
        n
    };
    let ghost t = if content@.len() > 0 && content@.last() == '\n' {
        content@.drop_last()
    } else {
        content@
    };
    proof {
        assert(t =~= chars@.take(end as int));
    }
    // Find where the last line begins.
    let mut k: usize = end;
    while k > 0 && chars[k - 1] != '\n'
        invariant
            n == chars@.len(),
            k <= end <= n,
            t == chars@.take(end as int),
            forall|j: int| k <= j < end ==> chars@[j] != '\n',
        decreases k,
    {
        k = k - 1;
    }
    proof {
        assert forall|j: int| k <= j < t.len() implies t[j] != '\n' by {
            assert(t[j] == chars@[j]);
        }
        if k > 0 {
            assert(t[k - 1] == chars@[k - 1]);
        }
        lemma_after_last_nl_at(t, k as int);
    }
    let ghost l = after_last_nl(t);
    if end - k == 0 {
        return None;
    }
    let keep = if end - k > 20 {
        20
    } else {
        end - k
    };
    let mut head: Vec<char> = Vec::new();
    let mut i: usize = k;
    while i < k + keep
        invariant
            n == chars@.len(),
            k <= i <= k + keep,
            k + keep <= end <= n,
            head@ == chars@.subrange(k as int, i as int),
        decreases k + keep - i,
    {
        head.push(chars[i]);
        proof {
            assert(head@ =~= chars@.subrange(k as int, i + 1 as int));
        }
        i = i + 1;
    }
    proof {
        assert(l =~= chars@.subrange(k as int, end as int));
        assert(l.len() == end - k);
    }
    let mut out = chars_to_string(&head);
    if end - k > 20 {
        out.append("...");
        proof {
            assert(head@ =~= l.take(20));
        }
    } else {
        proof {
            assert(head@ =~= l);
        }
    }
    Some(out)
}

/// Lexicographic order on texts, by character code point — the order in
/// which sessions are listed.
pub open spec fn lex_le(a: Seq<char>, b: Seq<char>) -> bool
    decreases a.len(),
{
    if a.len() == 0 {
        true
    } else if b.len() == 0 {
        false
    } else if (a[0] as u32) < (b[0] as u32) {
        true
    } else if (a[0] as u32) > (b[0] as u32) {
        false
    } else {
        lex_le(a.drop_first(), b.drop_first())
    }
}

/// The order is total: of two texts, one comes no later than the other.
pub proof fn lemma_lex_le_total(a: Seq<char>, b: Seq<char>)
    ensures
        lex_le(a, b) || lex_le(b, a),
    decreases a.len(),
{
    if a.len() > 0 && b.len() > 0 && (a[0] as u32) == (b[0] as u32) {
        lemma_lex_le_total(a.drop_first(), b.drop_first());
    }
}

/// The order is transitive.
pub proof fn lemma_lex_le_trans(a: Seq<char>, b: Seq<char>, c: Seq<char>)
    requires
        lex_le(a, b),
        lex_le(b, c),
    ensures
        lex_le(a, c),
    decreases a.len(),
{
    if a.len() > 0 && c.len() > 0 {
        if b.len() > 0 && (a[0] as u32) == (b[0] as u32) && (b[0] as u32) == (c[0] as u32) {
            lemma_lex_le_trans(a.drop_first(), b.drop_first(), c.drop_first());
        }
    }
}

/// Equal prefixes do not decide the order.
proof fn lemma_lex_le_skip(a: Seq<char>, b: Seq<char>, i: int)
    requires
        0 <= i <= a.len(),
        i <= b.len(),
        forall|j: int| 0 <= j < i ==> a[j] == b[j],
    ensures
        lex_le(a, b) == lex_le(a.skip(i), b.skip(i)),
    decreases i,
{
    if i == 0 {
        assert(a.skip(0) =~= a);
        assert(b.skip(0) =~= b);
    } else {
        lemma_lex_le_skip(a, b, i - 1);
        let ap = a.skip(i - 1);
        let bp = b.skip(i - 1);
        assert(ap[0] == a[i - 1] && bp[0] == b[i - 1]);
        assert(ap.drop_first() =~= a.skip(i));
        assert(bp.drop_first() =~= b.skip(i));
    }
}

/// Whether `a` comes no later than `b` in the listing order.
pub fn str_le(a: &str, b: &str) -> (r: bool)
    ensures
        r == lex_le(a@, b@),
{
    let na = a.unicode_len();
    let nb = b.unicode_len();
    let mut i: usize = 0;
    while i < na && i < nb
        invariant
            na == a@.len(),
            nb == b@.len(),
            i <= na,
            i <= nb,
            forall|j: int| 0 <= j < i ==> a@[j] == b@[j],
        decreases na - i,
    {
        let ca = a.get_char(i) as u32;
        let cb = b.get_char(i) as u32;
        if ca < cb {
            proof {
                lemma_lex_le_skip(a@, b@, i as int);
            }
            return true;
        }
        if ca > cb {
            proof {
                lemma_lex_le_skip(a@, b@, i as int);
            }
            return false;
        }
        proof {
            vstd::utf8::char_u32_cast(a@[i as int], ca);
            vstd::utf8::char_u32_cast(b@[i as int], cb);
        }
        i = i + 1;
    }
    proof {
        lemma_lex_le_skip(a@, b@, i as int);
        if i == na {
            assert(a@.skip(i as int) =~= Seq::<char>::empty());
        } else {
            assert(b@.skip(i as int) =~= Seq::<char>::empty());
            assert(a@.skip(i as int).len() > 0);
        }
    }
    na <= nb
}

/// One session as the listing shows it: its name and, where readable, its
/// recorded command, its working directory, and a preview of its current
/// prompt line.
pub struct SessionEntry {
    pub name: String,
    pub command: Option<String>,
    pub cwd: Option<String>,
    pub prompt: Option<String>,
}

/// A listing ordered by session name.
pub open spec fn sorted_by_name(s: Seq<SessionEntry>) -> bool {
    forall|i: int, j: int| 0 <= i < j < s.len() ==> lex_le(s[i].name@, s[j].name@)
}

/// Order the session entries by name.  The result holds exactly the given
/// entries.
pub fn sort_sessions(entries: Vec<SessionEntry>) -> (r: Vec<SessionEntry>)
    ensures
        sorted_by_name(r@),
        r@.to_multiset() == entries@.to_multiset(),
{

    let ghost orig = entries@;
    let mut rest = entries;
    let mut out: Vec<SessionEntry> = Vec::new();
    proof {
        broadcast use vstd::multiset::group_multiset_axioms;

        assert forall|x: SessionEntry|
            out@.to_multiset().add(rest@.to_multiset()).count(x) == orig.to_multiset().count(
                x,
            ) by {
            broadcast use vstd::seq_lib::group_to_multiset_ensures;

            assert(!out@.contains(x));
            assert(out@.to_multiset().count(x) == 0);
        }
        assert(out@.to_multiset().add(rest@.to_multiset()) =~= orig.to_multiset());
    }
    while rest.len() > 0
        invariant
            sorted_by_name(out@),
            out@.to_multiset().add(rest@.to_multiset()) == orig.to_multiset(),
        decreases rest@.len(),
    {
        let ghost rest0 = rest@;
        let e = match rest.pop() {
            Some(e) => e,
            None => {
                proof {
                    assert(false);
                }
                return out;
            },
        };
        proof {
            assert(rest0 =~= rest@.push(e));
            vstd::seq_lib::to_multiset_build(rest@, e);
            assert(rest0.to_multiset() == rest@.to_multiset().insert(e));
        }
        let mut j: usize = 0;
        while j < out.len() && str_le(out[j].name.as_str(), e.name.as_str())
            invariant
                j <= out@.len(),
                forall|k: int| 0 <= k < j ==> lex_le((#[trigger] out@[k]).name@, e.name@),
            decreases out@.len() - j,
        {
            j = j + 1;
        }
        proof {
            if j < out@.len() {
                lemma_lex_le_total(out@[j as int].name@, e.name@);
            }
        }
        let ghost out0 = out@;
        out.insert(j, e);
        proof {
            out0.insert_ensures(j as int, e);
            assert(sorted_by_name(out@)) by {
                assert forall|x: int, y: int| 0 <= x < y < out@.len() implies lex_le(
                    out@[x].name@,
                    out@[y].name@,
                ) by {
                    if y < j {
                        assert(out@[x] == out0[x] && out@[y] == out0[y]);
                    } else if y == j {
                        assert(out@[x] == out0[x]);
                        assert(out@[y] == e);
                    } else {
                        // y > j: the element at y is out0[y - 1], and
                        // j < out0.len(), so the insertion point's order
                        // against e is known.
                        assert(out@[y] == out0[y - 1]);
                        assert(j < out0.len());
                        assert(lex_le(e.name@, out0[j as int].name@));
                        if x < j {
                            assert(out@[x] == out0[x]);
                            if y - 1 == j {
                                lemma_lex_le_trans(
                                    out0[x].name@,
                                    e.name@,
                                    out0[y - 1].name@,
                                );
                            } else {
                                lemma_lex_le_trans(
                                    out0[x].name@,
                                    e.name@,
                                    out0[j as int].name@,
                                );
                                lemma_lex_le_trans(
                                    out0[x].name@,
                                    out0[j as int].name@,
                                    out0[y - 1].name@,
                                );
                            }
                        } else if x == j {
                            assert(out@[x] == e);
                            if y - 1 > j {
                                lemma_lex_le_trans(
                                    e.name@,
                                    out0[j as int].name@,
                                    out0[y - 1].name@,
                                );
                            }
                        } else {
                            assert(out@[x] == out0[x - 1]);
                        }
                    }
                }
            }
            vstd::seq_lib::to_multiset_insert(out0, j as int, e);
            assert(out@.to_multiset() == out0.to_multiset().insert(e));
            assert(out@.to_multiset().add(rest@.to_multiset()) =~= orig.to_multiset()) by {
                broadcast use vstd::multiset::group_multiset_axioms;
            }
        }
    }
    proof {
        broadcast use vstd::multiset::group_multiset_axioms;

        assert forall|x: SessionEntry| out@.to_multiset().count(x) == orig.to_multiset().count(
            x,
        ) by {
            broadcast use vstd::seq_lib::group_to_multiset_ensures;

            assert(!rest@.contains(x));
            assert(rest@.to_multiset().count(x) == 0);
        }
        assert(out@.to_multiset() =~= orig.to_multiset());
    }
    out
}

/// `SessionEntry` over character sequences, for contracts.
pub struct SessionEntryView {
    pub name: Seq<char>,
    pub command: Option<Seq<char>>,
    pub cwd: Option<Seq<char>>,
    pub prompt: Option<Seq<char>>,
}

impl View for SessionEntry {
    type V = SessionEntryView;

    open spec fn view(&self) -> SessionEntryView {
        SessionEntryView {
            name: self.name@,
            command: match self.command {
                Some(c) => Some(c@),
                None => None,
            },
            cwd: match self.cwd {
                Some(c) => Some(c@),
                None => None,
            },
            prompt: match self.prompt {
                Some(p) => Some(p@),
                None => None,
            },
        }
    }
}

impl DeepView for SessionEntry {
    type V = SessionEntryView;

    open spec fn deep_view(&self) -> SessionEntryView {
        self.view()
    }
}

/// The larger of two numbers.
pub open spec fn max2(a: int, b: int) -> int {
    if a >= b {
        a
    } else {
        b
    }
}

/// `n` spaces (none for `n <= 0`).
pub open spec fn spaces(n: int) -> Seq<char> {
    if n <= 0 {
        Seq::empty()
    } else {
        Seq::new(n as nat, |i: int| ' ')
    }
}

/// `s` padded with spaces on the right to width `w`.
pub open spec fn pad_to(s: Seq<char>, w: int) -> Seq<char> {
    s + spaces(w - s.len())
}

/// The text of an optional field, empty when absent.
pub open spec fn opt_text(o: Option<Seq<char>>) -> Seq<char> {
    match o {
        Some(s) => s,
        None => Seq::empty(),
    }
}

/// `s` without its leading whitespace.
pub open spec fn trim_start(s: Seq<char>) -> Seq<char>
    decreases s.len(),
{
    if s.len() > 0 && is_space(s[0]) {
        trim_start(s.drop_first())
    } else {
        s
    }
}

/// `s` without leading and trailing whitespace.
pub open spec fn spec_trim(s: Seq<char>) -> Seq<char> {
    trim_start(crate::normalize::trim_end(s))
}

/// Strip whitespace from both ends of a text.
pub fn trim_text(s: &str) -> (r: Vec<char>)
    ensures
        r@ == spec_trim(s@),
{
    let chars = str_to_chars(s);
    let n = chars.len();
    let mut b = n;
    proof {
        assert(chars@.take(n as int) =~= chars@);
    }
    while b > 0 && space_char(chars[b - 1])
        invariant
            n == chars@.len(),
            chars@ == s@,
            b <= n,
            crate::normalize::trim_end(s@) == crate::normalize::trim_end(s@.take(b as int)),
        decreases b,
    {
        proof {
            assert(s@.take(b as int).drop_last() =~= s@.take(b - 1 as int));
            assert(s@.take(b as int).last() == s@[b - 1]);
        }
        b = b - 1;
    }
    proof {
        if b > 0 {
            assert(s@.take(b as int).last() == s@[b - 1]);
        }
        assert(crate::normalize::trim_end(s@) == s@.take(b as int));
    }
    let ghost te = s@.take(b as int);
    let mut a: usize = 0;
    proof {
        assert(te.skip(0) =~= te);
    }
    while a < b && space_char(chars[a])
        invariant
            n == chars@.len(),
            chars@ == s@,
            b <= n,
            te == s@.take(b as int),
            a <= b,
            trim_start(te) == trim_start(te.skip(a as int)),
        decreases b - a,
    {
        proof {
            assert(te.skip(a as int)[0] == s@[a as int]);
            assert(te.skip(a as int).drop_first() =~= te.skip(a + 1 as int));
        }
        a = a + 1;
    }
    proof {
        if a < b {
            assert(te.skip(a as int)[0] == s@[a as int]);
        }
        assert(trim_start(te.skip(a as int)) == te.skip(a as int));
        assert(te.skip(a as int) =~= s@.subrange(a as int, b as int));
    }
    let mut out: Vec<char> = Vec::new();
    let mut k: usize = a;
    while k < b
        invariant
            n == chars@.len(),
            chars@ == s@,
            a <= k <= b <= n,
            out@ == s@.subrange(a as int, k as int),
        decreases b - k,
    {
        out.push(chars[k]);
        proof {
            assert(out@ =~= s@.subrange(a as int, k + 1 as int));
        }
        k = k + 1;
    }
    out
}

/// The listing's name column width: the longest session name, and room for
/// the column header.
pub open spec fn width_name(s: Seq<SessionEntryView>) -> int
    decreases s.len(),
{
    if s.len() == 0 {
        7
    } else {
        max2(width_name(s.drop_last()), s.last().name.len() as int)
    }
}

/// The listing's prompt column width: the longest prompt preview, and room
/// for the column header.
pub open spec fn width_prompt(s: Seq<SessionEntryView>) -> int
    decreases s.len(),
{
    if s.len() == 0 {
        11
    } else {
        max2(width_prompt(s.drop_last()), opt_text(s.last().prompt).len() as int)
    }
}

/// The listing's directory column width: the longest trimmed working
/// directory, and room for the column header.
pub open spec fn width_cwd(s: Seq<SessionEntryView>) -> int
    decreases s.len(),
{
    if s.len() == 0 {
        17
    } else {
        max2(width_cwd(s.drop_last()), spec_trim(opt_text(s.last().cwd)).len() as int)
    }
}

/// The listing's header row, for the given column widths.
pub open spec fn header_row(w1: int, w2: int, w3: int) -> Seq<char> {
    pad_to("Session"@, w1) + "  "@ + pad_to("Prompt Line"@, w2) + "  "@ + pad_to(
        "Working Directory"@,
        w3,
    ) + "  "@ + "Command"@
}

/// One session's row in the listing: name, prompt preview and trimmed
/// working directory padded to their columns, then the trimmed command.
pub open spec fn entry_row(e: SessionEntryView, w1: int, w2: int, w3: int) -> Seq<char> {
    pad_to(e.name, w1) + "  "@ + pad_to(opt_text(e.prompt), w2) + "  "@ + pad_to(
        spec_trim(opt_text(e.cwd)),
        w3,
    ) + "  "@ + spec_trim(opt_text(e.command))
}

/// The whole listing: a header row, then one row per session, in the given
/// order; nothing at all without sessions.
pub open spec fn spec_session_table(s: Seq<SessionEntryView>) -> Seq<Seq<char>> {
    if s.len() == 0 {
        Seq::empty()
    } else {
        seq![header_row(width_name(s), width_prompt(s), width_cwd(s))] + Seq::new(
            s.len(),
            |i: int| entry_row(s[i], width_name(s), width_prompt(s), width_cwd(s)),
        )
    }
}

/// Append `src` to `dst`.
fn push_all(dst: &mut Vec<char>, src: &Vec<char>)
    ensures
        final(dst)@ == old(dst)@ + src@,
{
    let n = src.len();
    let mut i: usize = 0;
    while i < n
        invariant
            n == src@.len(),
            i <= n,
            dst@ == old(dst)@ + src@.take(i as int),
        decreases n - i,
    {
        dst.push(src[i]);
        proof {
            assert(old(dst)@ + src@.take(i + 1 as int) =~= (old(dst)@ + src@.take(i as int)).push(
                src@[i as int],
            ));
        }
        i = i + 1;
    }
    proof {
        assert(src@.take(n as int) =~= src@);
    }
}

/// Append the characters of `src` to `dst`.
fn push_str_chars(dst: &mut Vec<char>, src: &str)
    ensures
        final(dst)@ == old(dst)@ + src@,
{
    let chars = str_to_chars(src);
    push_all(dst, &chars);
}

/// Append `src` padded with spaces on the right to width `w`.
fn push_padded(dst: &mut Vec<char>, src: &Vec<char>, w: usize)
    ensures
        final(dst)@ == old(dst)@ + pad_to(src@, w as int),
{
    let n = src.len();
    push_all(dst, src);
    let mut k: usize = n;
    while k < w
        invariant
            n == src@.len(),
            n <= k,
            k <= w || k == n,
            dst@ == old(dst)@ + src@ + spaces(k - n),
        decreases w - k,
    {
        dst.push(' ');
        proof {
            assert(spaces(k + 1 - n) =~= spaces(k - n).push(' '));
            assert(old(dst)@ + src@ + spaces(k + 1 - n) =~= (old(dst)@ + src@ + spaces(
                k - n,
            )).push(' '));
        }
        k = k + 1;
    }
    proof {
        assert(spaces(0) =~= Seq::<char>::empty());
        assert(old(dst)@ + src@ + spaces(k - n) =~= old(dst)@ + pad_to(src@, w as int));
    }
}

/// Render the session listing as rows of text, one per session under a
/// header, the columns sized to their content.
pub fn format_session_table(entries: &Vec<SessionEntry>) -> (r: Vec<String>)
    ensures
        r.deep_view() == spec_session_table(entries.deep_view()),
{
    let ghost sv = entries.deep_view();
    let n = entries.len();
    if n == 0 {
        let r: Vec<String> = Vec::new();
        proof {
            assert(r.deep_view() =~= spec_session_table(sv));
        }
        return r;
    }
    // Column widths.
    let mut w1: usize = 7;
    let mut w2: usize = 11;
    let mut w3: usize = 17;
    let mut i: usize = 0;
    while i < n
        invariant
            sv == entries.deep_view(),
            n == sv.len(),
            i <= n,
            w1 as int == width_name(sv.take(i as int)),
            w2 as int == width_prompt(sv.take(i as int)),
            w3 as int == width_cwd(sv.take(i as int)),
        decreases n - i,
    {
        proof {
            assert(sv[i as int] == entries@[i as int]@);
            assert(sv.take(i + 1 as int).drop_last() =~= sv.take(i as int));
            assert(sv.take(i + 1 as int).last() == sv[i as int]);
        }
        let name_len = entries[i].name.as_str().unicode_len();
        if name_len > w1 {
            w1 = name_len;
        }
        let prompt_len = match &entries[i].prompt {
            Some(p) => p.as_str().unicode_len(),
            None => 0,
        };
        if prompt_len > w2 {
            w2 = prompt_len;
        }
        let cwd_len = match &entries[i].cwd {
            Some(c) => trim_text(c.as_str()).len(),
            None => 0,
        };
        if cwd_len > w3 {
            w3 = cwd_len;
        }
        i = i + 1;
    }
    proof {
        assert(sv.take(n as int) =~= sv);
    }
    let mut rows: Vec<String> = Vec::new();
    // Header row.
    let mut head: Vec<char> = Vec::new();
    let gap = String::from_str("  ");
    push_padded_str(&mut head, "Session", w1);
    push_str_chars(&mut head, gap.as_str());
    push_padded_str(&mut head, "Prompt Line", w2);
    push_str_chars(&mut head, gap.as_str());
    push_padded_str(&mut head, "Working Directory", w3);
    push_str_chars(&mut head, gap.as_str());
    push_str_chars(&mut head, "Command");
    proof {
        assert(head@ =~= header_row(w1 as int, w2 as int, w3 as int));
    }
    rows.push(chars_to_string(&head));
    // One row per session.
    let mut i: usize = 0;
    while i < n
        invariant
            sv == entries.deep_view(),
            n == sv.len(),
            n > 0,
            i <= n,
            gap@ == "  "@,
            rows@.len() == i + 1,
            rows.deep_view()[0] == header_row(w1 as int, w2 as int, w3 as int),
            forall|j: int| 0 <= j < i ==> rows.deep_view()[j + 1] == entry_row(
                sv[j],
                w1 as int,
                w2 as int,
                w3 as int,
            ),
        decreases n - i,
    {
        proof {
            assert(sv[i as int] == entries@[i as int]@);
        }
        let ghost e = sv[i as int];
        let mut row: Vec<char> = Vec::new();
        push_padded_str(&mut row, entries[i].name.as_str(), w1);
        proof {
            assert(row@ =~= Seq::<char>::empty() + pad_to(e.name, w1 as int));
        }
        push_str_chars(&mut row, gap.as_str());
        match &entries[i].prompt {
            Some(p) => {
                proof {
                    assert(opt_text(e.prompt) == p@);
                }
                push_padded_str(&mut row, p.as_str(), w2);
            },
            None => {
                let empty: Vec<char> = Vec::new();
                proof {
                    assert(opt_text(e.prompt) =~= empty@);
                }
                push_padded(&mut row, &empty, w2);
            },
        }
        proof {
            assert(row@ =~= Seq::<char>::empty() + pad_to(e.name, w1 as int) + "  "@ + pad_to(
                opt_text(e.prompt),
                w2 as int,
            ));
        }
        push_str_chars(&mut row, gap.as_str());
        match &entries[i].cwd {
            Some(c) => {
                let t = trim_text(c.as_str());
                proof {
                    assert(spec_trim(opt_text(e.cwd)) == t@);
                }
                push_padded(&mut row, &t, w3);
            },
            None => {
                let empty: Vec<char> = Vec::new();
                proof {
                    assert(spec_trim(opt_text(e.cwd)) =~= empty@);
                }
                push_padded(&mut row, &empty, w3);
            },
        }
        push_str_chars(&mut row, gap.as_str());
        match &entries[i].command {
            Some(c) => {
                let t = trim_text(c.as_str());
                proof {
                    assert(spec_trim(opt_text(e.command)) == t@);
                }
                push_all(&mut row, &t);
            },
            None => {
                proof {
                    assert(spec_trim(opt_text(e.command)) =~= Seq::<char>::empty());
                }
            },
        }
        proof {
            assert(row@ =~= entry_row(e, w1 as int, w2 as int, w3 as int));
        }
        let ghost rows0 = rows.deep_view();
        rows.push(chars_to_string(&row));
        proof {
            assert(rows.deep_view() =~= rows0.push(row@));
        }
        i = i + 1;
    }
    proof {
        assert(rows.deep_view() =~= spec_session_table(sv));
    }
    rows
}

/// Append a text padded with spaces on the right to width `w`.
fn push_padded_str(dst: &mut Vec<char>, src: &str, w: usize)
    ensures
        final(dst)@ == old(dst)@ + pad_to(src@, w as int),
{
    let chars = str_to_chars(src);
    push_padded(dst, &chars, w);
}

} // verus!
