//! Command-line grammar: the top-level dispatch and the arguments of the
//! `tail` subcommand.  Parsing is pure — the caller hands the argument
//! strings in and acts on the parsed command.

use vstd::prelude::*;
use crate::codec::str_eq;

verus! {

/// Whether `c` is a decimal digit.
pub open spec fn is_digit(c: char) -> bool {
    48 <= c as u32 <= 57
}

/// The number a digit string denotes, most significant digit first.
pub open spec fn digits_val(d: Seq<char>) -> int
    decreases d.len(),
{
    if d.len() == 0 {
        0
    } else {
        digits_val(d.drop_last()) * 10 + (d.last() as u32 - 48)
    }
}

/// The digits of a number string: everything after one optional leading `+`.
pub open spec fn usize_digits(s: Seq<char>) -> Seq<char> {
    if s.len() > 0 && s[0] == '+' {
        s.drop_first()
    } else {
        s
    }
}

/// Whether `s` is a string that parses as a `usize`: an optional `+`, then
/// one or more digits, denoting a value that fits.
pub open spec fn valid_usize_str(s: Seq<char>) -> bool {
    let d = usize_digits(s);
    &&& d.len() > 0
    &&& forall|i: int| 0 <= i < d.len() ==> is_digit(#[trigger] d[i])
    &&& digits_val(d) <= usize::MAX
}

/// A digit string denotes a non-negative number.
proof fn lemma_digits_val_nonneg(d: Seq<char>)
    requires
        forall|i: int| 0 <= i < d.len() ==> is_digit(#[trigger] d[i]),
    ensures
        digits_val(d) >= 0,
    decreases d.len(),
{
    if d.len() > 0 {
        assert forall|i: int| 0 <= i < d.drop_last().len() implies is_digit(
            #[trigger] d.drop_last()[i],
        ) by {
            assert(d.drop_last()[i] == d[i]);
        }
        lemma_digits_val_nonneg(d.drop_last());
    }
}

/// Extending a digit string never shrinks its value.
proof fn lemma_digits_val_prefix(d: Seq<char>, k: int)
    requires
        0 <= k <= d.len(),
        forall|i: int| 0 <= i < d.len() ==> is_digit(#[trigger] d[i]),
    ensures
        digits_val(d.take(k)) <= digits_val(d),
    decreases d.len() - k,
{
    if k < d.len() {
        lemma_digits_val_prefix(d, k + 1);
        let t = d.take(k + 1);
        assert(t.drop_last() =~= d.take(k));
        assert(t.last() == d[k]);
        assert forall|i: int| 0 <= i < d.take(k).len() implies is_digit(
            #[trigger] d.take(k)[i],
        ) by {
            assert(d.take(k)[i] == d[i]);
        }
        lemma_digits_val_nonneg(d.take(k));
        assert(digits_val(d.take(k)) <= digits_val(t));
    } else {
        assert(d.take(k) =~= d);
    }
}

/// Parse a line count as `usize::from_str` would: an optional `+`, then one
/// or more digits; `None` on anything else and on a value too large.
pub fn parse_usize(s: &str) -> (r: Option<usize>)
    ensures
        r is Some <==> valid_usize_str(s@),
        r matches Some(v) ==> v == digits_val(usize_digits(s@)),
{
    let n = s.unicode_len();
    let ghost d = usize_digits(s@);
    let start: usize = if n > 0 && s.get_char(0) == '+' {
        1
    } else {
        0
    };
    proof {
        if start == 1 {
            assert(d =~= s@.skip(1));
        } else {
            assert(d =~= s@.skip(0));
            assert(s@.skip(0) =~= s@);
        }
    }
    if start == n {
        return None;
    }
    let mut v: usize = 0;
    let mut i: usize = start;
    while i < n
        invariant
            n == s@.len(),
            start <= i <= n,
            start < n,
            d == usize_digits(s@),
            d.len() == n - start,
            forall|j: int| 0 <= j < d.len() ==> d[j] == s@[start + j],
            forall|j: int| 0 <= j < i - start ==> is_digit(#[trigger] d[j]),
            v == digits_val(d.take(i - start)),
        decreases n - i,
    {
        let c = s.get_char(i);
        let u = c as u32;
        if !(48 <= u && u <= 57) {
            proof {
                assert(!is_digit(d[i - start]));
            }
            return None;
        }
        let dig = (u - 48) as usize;
        let next = match v.checked_mul(10) {
            Some(m) => m.checked_add(dig),
            None => None,
        };
        proof {
            assert(d.take(i - start + 1).drop_last() =~= d.take(i - start));
            assert(d.take(i - start + 1).last() == d[i - start]);
        }
        match next {
            Some(w) => {
                v = w;
            },
            None => {
                proof {
                    // The value so far already exceeds what fits, so however
                    // the string goes on, it does not parse.
                    if forall|j: int| 0 <= j < d.len() ==> is_digit(#[trigger] d[j]) {
                        assert(digits_val(d.take(i - start + 1)) > usize::MAX);
                        lemma_digits_val_prefix(d, i - start + 1);
                    }
                }
                return None;
            },
        }
        i = i + 1;
    }
    proof {
        assert(d.take(n - start) =~= d);
    }
    Some(v)
}

/// How the `tail` subcommand selects output: the last lines plainly, the
/// lines since the last prompt occurrence, or the stanza between the two
/// most recent occurrences.
#[derive(Debug)]
pub enum TailMode {
    Plain,
    Since(String),
    Delim(String),
}

/// `TailMode` over character sequences, for contracts.
pub enum TailModeView {
    Plain,
    Since(Seq<char>),
    Delim(Seq<char>),
}

impl View for TailMode {
    type V = TailModeView;

    open spec fn view(&self) -> TailModeView {
        match self {
            TailMode::Plain => TailModeView::Plain,
            TailMode::Since(p) => TailModeView::Since(p@),
            TailMode::Delim(p) => TailModeView::Delim(p@),
        }
    }
}

/// What a parsed `tail` invocation asks for.
pub struct TailOptions {
    pub mode: TailMode,
    pub lines: Option<usize>,
    pub follow: bool,
}

/// `TailOptions` over mathematical values, for contracts.
pub struct TailOptionsView {
    pub mode: TailModeView,
    pub lines: Option<int>,
    pub follow: bool,
}

impl View for TailOptions {
    type V = TailOptionsView;

    open spec fn view(&self) -> TailOptionsView {
        TailOptionsView {
            mode: self.mode@,
            lines: match self.lines {
                Some(v) => Some(v as int),
                None => None,
            },
            follow: self.follow,
        }
    }
}

/// Why a `tail` invocation is rejected.
#[derive(Debug)]
pub enum TailArgsError {
    /// `-n` without a following count.
    MissingLineCount,
    /// `-n` with a value that is not a line count; holds that value.
    InvalidLineCount(String),
    /// `--since` without a following prompt.
    MissingSincePrompt,
    /// `--delim` without a following prompt.
    MissingDelimPrompt,
    /// Both `--since` and `--delim` (or one of them twice).
    ModeConflict,
    /// `-f` combined with `--since` or `--delim`.
    FollowModeConflict,
    /// Neither a line count, a mode, nor `-f`: nothing to do.
    NothingToDo,
}

/// `TailArgsError` over character sequences, for contracts.
pub enum TailArgsErrorView {
    MissingLineCount,
    InvalidLineCount(Seq<char>),
    MissingSincePrompt,
    MissingDelimPrompt,
    ModeConflict,
    FollowModeConflict,
    NothingToDo,
}

impl View for TailArgsError {
    type V = TailArgsErrorView;

    open spec fn view(&self) -> TailArgsErrorView {
        match self {
            TailArgsError::MissingLineCount => TailArgsErrorView::MissingLineCount,
            TailArgsError::InvalidLineCount(s) => TailArgsErrorView::InvalidLineCount(s@),
            TailArgsError::MissingSincePrompt => TailArgsErrorView::MissingSincePrompt,
            TailArgsError::MissingDelimPrompt => TailArgsErrorView::MissingDelimPrompt,
            TailArgsError::ModeConflict => TailArgsErrorView::ModeConflict,
            TailArgsError::FollowModeConflict => TailArgsErrorView::FollowModeConflict,
            TailArgsError::NothingToDo => TailArgsErrorView::NothingToDo,
        }
    }
}

/// Whether `a` is one of the four option words the `tail` grammar knows.
pub open spec fn is_tail_flag(a: Seq<char>) -> bool {
    a == "-f"@ || a == "-n"@ || a == "--since"@ || a == "--delim"@
}

/// The `tail` argument grammar, from position `i` with the options gathered
/// so far.  Scanning stops at the first word that is not an option; then
/// `-f` must stand alone, and at least one of a line count, a mode or `-f`
/// must have been given.
pub open spec fn parse_tail_rec(
    a: Seq<Seq<char>>,
    i: int,
    mode: TailModeView,
    lines: Option<int>,
    follow: bool,
) -> Result<TailOptionsView, TailArgsErrorView>
    decreases a.len() - i,
{
    if i < 0 || i >= a.len() || !is_tail_flag(a[i]) {
        if follow && !(mode is Plain) {
            Err(TailArgsErrorView::FollowModeConflict)
        } else if mode is Plain && lines is None && !follow {
            Err(TailArgsErrorView::NothingToDo)
        } else {
            Ok(TailOptionsView { mode, lines, follow })
        }
    } else if a[i] == "-f"@ {
        parse_tail_rec(a, i + 1, mode, lines, true)
    } else if a[i] == "-n"@ {
        if i + 1 >= a.len() {
            Err(TailArgsErrorView::MissingLineCount)
        } else if !valid_usize_str(a[i + 1]) {
            Err(TailArgsErrorView::InvalidLineCount(a[i + 1]))
        } else {
            parse_tail_rec(a, i + 2, mode, Some(digits_val(usize_digits(a[i + 1]))), follow)
        }
    } else if a[i] == "--since"@ {
        if i + 1 >= a.len() {
            Err(TailArgsErrorView::MissingSincePrompt)
        } else if !(mode is Plain) {
            Err(TailArgsErrorView::ModeConflict)
        } else {
            parse_tail_rec(a, i + 2, TailModeView::Since(a[i + 1]), lines, follow)
        }
    } else {
        if i + 1 >= a.len() {
            Err(TailArgsErrorView::MissingDelimPrompt)
        } else if !(mode is Plain) {
            Err(TailArgsErrorView::ModeConflict)
        } else {
            parse_tail_rec(a, i + 2, TailModeView::Delim(a[i + 1]), lines, follow)
        }
    }
}

/// What a `tail` invocation with these arguments asks for, or why it is
/// rejected.
pub open spec fn spec_parse_tail_args(a: Seq<Seq<char>>) -> Result<
    TailOptionsView,
    TailArgsErrorView,
> {
    parse_tail_rec(a, 0, TailModeView::Plain, None, false)
}

/// Parse the arguments of the `tail` subcommand.
pub fn parse_tail_args(args: &Vec<String>) -> (r: Result<TailOptions, TailArgsError>)
    ensures
        (r matches Ok(o) ==> spec_parse_tail_args(args.deep_view()) matches Ok(s) && o@ == s),
        (r matches Err(e) ==> spec_parse_tail_args(args.deep_view()) matches Err(s) && e@ == s),
{
    let ghost av = args.deep_view();
    let n = args.len();
    let mut mode = TailMode::Plain;
    let mut lines: Option<usize> = None;
    let mut follow = false;
    let mut i: usize = 0;
    let mut done = false;
    proof {
        assert(av.len() == n);
    }
    while i < n && !done
        invariant
            av == args.deep_view(),
            n == av.len(),
            i <= n,
            spec_parse_tail_args(av) == parse_tail_rec(
                av,
                i as int,
                mode@,
                match lines {
                    Some(v) => Some(v as int),
                    None => None,
                },
                follow,
            ),
            done ==> !is_tail_flag(av[i as int]),
        decreases n - i, if done { 0int } else { 1int },
    {
        proof {
            assert(av[i as int] == args@[i as int]@);
        }
        if str_eq(args[i].as_str(), "-f") {
            follow = true;
            i = i + 1;
        } else if str_eq(args[i].as_str(), "-n") {
            if i + 1 >= n {
                return Err(TailArgsError::MissingLineCount);
            }
            proof {
                assert(av[i + 1 as int] == args@[i + 1 as int]@);
            }
            match parse_usize(args[i + 1].as_str()) {
                Some(v) => {
                    lines = Some(v);
                },
                None => {
                    return Err(TailArgsError::InvalidLineCount(args[i + 1].clone()));
                },
            }
            i = i + 2;
        } else if str_eq(args[i].as_str(), "--since") {
            if i + 1 >= n {
                return Err(TailArgsError::MissingSincePrompt);
            }
            if !matches!(mode, TailMode::Plain) {
                return Err(TailArgsError::ModeConflict);
            }
            proof {
                assert(av[i + 1 as int] == args@[i + 1 as int]@);
            }
            mode = TailMode::Since(args[i + 1].clone());
            i = i + 2;
        } else if str_eq(args[i].as_str(), "--delim") {
            if i + 1 >= n {
                return Err(TailArgsError::MissingDelimPrompt);
            }
            if !matches!(mode, TailMode::Plain) {
                return Err(TailArgsError::ModeConflict);
            }
            proof {
                assert(av[i + 1 as int] == args@[i + 1 as int]@);
            }
            mode = TailMode::Delim(args[i + 1].clone());
            i = i + 2;
        } else {
            done = true;
        }
    }
    if follow && !matches!(mode, TailMode::Plain) {
        return Err(TailArgsError::FollowModeConflict);
    }
    if matches!(mode, TailMode::Plain) && lines.is_none() && !follow {
        return Err(TailArgsError::NothingToDo);
    }
    Ok(TailOptions { mode, lines, follow })
}

/// What a top-level invocation asks for.  The session's remaining arguments
/// stay with the caller, which still holds the full argument list.
#[derive(Debug)]
pub enum Command {
    /// `--help`, `-h` or `help`: show the global usage text.
    Usage,
    /// `--version`: show the version.
    Version,
    /// No arguments: list the sessions.
    ListSessions,
    /// `<session> help`: usage for one session.
    SessionHelp(String),
    /// `<session> run ...`: start the session's process.
    Run(String),
    /// `<session> write ...`: append input to the session.
    Write(String),
    /// `<session> tail ...`: show output.
    Tail(String),
    /// `<session> path`: print the session's directory.
    Path(String),
    /// `<session> <prompt ending in '>'> ...`: one synchronized exchange.
    PromptShorthand(String, String),
    /// A session name with no subcommand after it.
    MissingSubcommand(String),
    /// A subcommand this grammar does not know; holds session and word.
    UnknownSubcommand(String, String),
}

/// `Command` over character sequences, for contracts.
pub enum CommandView {
    Usage,
    Version,
    ListSessions,
    SessionHelp(Seq<char>),
    Run(Seq<char>),
    Write(Seq<char>),
    Tail(Seq<char>),
    Path(Seq<char>),
    PromptShorthand(Seq<char>, Seq<char>),
    MissingSubcommand(Seq<char>),
    UnknownSubcommand(Seq<char>, Seq<char>),
}

impl View for Command {
    type V = CommandView;

    open spec fn view(&self) -> CommandView {
        match self {
            Command::Usage => CommandView::Usage,
            Command::Version => CommandView::Version,
            Command::ListSessions => CommandView::ListSessions,
            Command::SessionHelp(s) => CommandView::SessionHelp(s@),
            Command::Run(s) => CommandView::Run(s@),
            Command::Write(s) => CommandView::Write(s@),
            Command::Tail(s) => CommandView::Tail(s@),
            Command::Path(s) => CommandView::Path(s@),
            Command::PromptShorthand(s, p) => CommandView::PromptShorthand(s@, p@),
            Command::MissingSubcommand(s) => CommandView::MissingSubcommand(s@),
            Command::UnknownSubcommand(s, w) => CommandView::UnknownSubcommand(s@, w@),
        }
    }
}

/// The top-level grammar: global flags first, then `help`, then a session
/// name with its subcommand; a subcommand ending in `>` is the prompt
/// shorthand for one synchronized exchange.
pub open spec fn spec_parse_command(a: Seq<Seq<char>>) -> CommandView {
    if a.len() > 0 && (a[0] == "--help"@ || a[0] == "-h"@) {
        CommandView::Usage
    } else if a.len() > 0 && a[0] == "--version"@ {
        CommandView::Version
    } else if a.len() == 0 {
        CommandView::ListSessions
    } else if a[0] == "help"@ {
        CommandView::Usage
    } else if a.len() < 2 {
        CommandView::MissingSubcommand(a[0])
    } else if a[1] == "help"@ {
        CommandView::SessionHelp(a[0])
    } else if a[1] == "run"@ {
        CommandView::Run(a[0])
    } else if a[1] == "write"@ {
        CommandView::Write(a[0])
    } else if a[1] == "tail"@ {
        CommandView::Tail(a[0])
    } else if a[1] == "path"@ {
        CommandView::Path(a[0])
    } else if a[1].len() > 0 && a[1].last() == '>' {
        CommandView::PromptShorthand(a[0], a[1])
    } else {
        CommandView::UnknownSubcommand(a[0], a[1])
    }
}

/// Parse a top-level invocation, the program name already removed.
pub fn parse_command(args: &Vec<String>) -> (r: Command)
    ensures
        r@ == spec_parse_command(args.deep_view()),
{
    let ghost av = args.deep_view();
    let n = args.len();
    proof {
        assert(av.len() == n);
        if n > 0 {
            assert(av[0] == args@[0]@);
        }
        if n > 1 {
            assert(av[1] == args@[1]@);
        }
    }
    if n > 0 && (str_eq(args[0].as_str(), "--help") || str_eq(args[0].as_str(), "-h")) {
        return Command::Usage;
    }
    if n > 0 && str_eq(args[0].as_str(), "--version") {
        return Command::Version;
    }
    if n == 0 {
        return Command::ListSessions;
    }
    if str_eq(args[0].as_str(), "help") {
        return Command::Usage;
    }
    if n < 2 {
        return Command::MissingSubcommand(args[0].clone());
    }
    if str_eq(args[1].as_str(), "help") {
        return Command::SessionHelp(args[0].clone());
    }
    if str_eq(args[1].as_str(), "run") {
        return Command::Run(args[0].clone());
    }
    if str_eq(args[1].as_str(), "write") {
        return Command::Write(args[0].clone());
    }
    if str_eq(args[1].as_str(), "tail") {
        return Command::Tail(args[0].clone());
    }
    if str_eq(args[1].as_str(), "path") {
        return Command::Path(args[0].clone());
    }
    let sub_len = args[1].as_str().unicode_len();
    if sub_len > 0 && args[1].as_str().get_char(sub_len - 1) == '>' {
        return Command::PromptShorthand(args[0].clone(), args[1].clone());
    }
    Command::UnknownSubcommand(args[0].clone(), args[1].clone())
}

} // verus!
