//! Bounded tail reader and stanza extractor.
//!
//! The output log can be arbitrarily large, so a tail never reads it whole:
//! the caller seeks to a heuristically estimated offset near the end, reads
//! from there, and hands the bytes here.  The functions below split them into
//! lines, keep the last `n`, and extract the stanza around the most recent
//! prompt occurrences.

use vstd::prelude::*;
use vstd::utf8::{decode_utf8, valid_utf8};
use crate::codec::decode_strict;

verus! {

/// Average bytes per line assumed when estimating where the last `n` lines
/// of the log begin.
pub const BYTES_PER_LINE_ESTIMATE: u64 = 80;

/// Where a bounded tail read of the last `n` lines starts: `n` estimated
/// lines before the end of the file, and never before byte 0.  A heuristic:
/// when actual lines run longer than the estimate, the read yields fewer
/// than `n` lines, which callers must tolerate; the gain is a read whose
/// cost is bounded by the window, not by the file.
pub open spec fn spec_tail_start(n: nat, file_size: nat) -> int {
    if n * 80 >= file_size {
        0
    } else {
        file_size - n * 80
    }
}

/// The byte offset at which a tail read of `n` lines starts.
pub fn tail_start_offset(n: usize, file_size: u64) -> (r: u64)
    ensures
        r == spec_tail_start(n as nat, file_size as nat),
{
    match (n as u64).checked_mul(BYTES_PER_LINE_ESTIMATE) {
        None => 0,
        Some(est) => {
            if est >= file_size {
                0
            } else {
                file_size - est
            }
        },
    }
}

/// The first position of byte `b` in `bs`, if any.
pub open spec fn find_byte(bs: Seq<u8>, b: u8) -> Option<int>
    decreases bs.len(),
{
    if bs.len() == 0 {
        None
    } else if bs[0] == b {
        Some(0)
    } else {
        match find_byte(bs.drop_first(), b) {
            Some(i) => Some(i + 1),
            None => None,
        }
    }
}

/// A found position lies inside the sequence and holds the byte.
proof fn lemma_find_byte_bounds(bs: Seq<u8>, b: u8)
    ensures
        find_byte(bs, b) matches Some(i) ==> 0 <= i < bs.len() && bs[i] == b,
    decreases bs.len(),
{
    if bs.len() > 0 && bs[0] != b {
        lemma_find_byte_bounds(bs.drop_first(), b);
    }
}

/// A position known to hold the first occurrence pins down `find_byte`.
proof fn lemma_find_byte_at(bs: Seq<u8>, b: u8, k: int)
    requires
        0 <= k < bs.len(),
        bs[k] == b,
        forall|j: int| 0 <= j < k ==> bs[j] != b,
    ensures
        find_byte(bs, b) == Some(k),
    decreases bs.len(),
{
    if k > 0 {
        lemma_find_byte_at(bs.drop_first(), b, k - 1);
    }
}

/// Without any occurrence, `find_byte` finds nothing.
proof fn lemma_find_byte_none(bs: Seq<u8>, b: u8)
    requires
        forall|j: int| 0 <= j < bs.len() ==> bs[j] != b,
    ensures
        find_byte(bs, b) is None,
    decreases bs.len(),
{
    if bs.len() > 0 {
        lemma_find_byte_none(bs.drop_first(), b);
    }
}

/// A line read up to a newline, without that newline and without one
/// carriage return just before it.
pub open spec fn chop_cr(bs: Seq<u8>) -> Seq<u8> {
    if bs.len() > 0 && bs.last() == 13 {
        bs.drop_last()
    } else {
        bs
    }
}

/// The lines of a byte string, as a line-oriented reader yields them: split
/// at each newline, a carriage return directly before a newline dropped, a
/// final fragment without a newline kept as it stands, and no empty line
/// after a final newline.
pub open spec fn split_lines(bs: Seq<u8>) -> Seq<Seq<u8>>
    decreases bs.len(),
    via split_lines_decreases
{
    if bs.len() == 0 {
        Seq::empty()
    } else {
        match find_byte(bs, 10) {
            None => seq![bs],
            Some(i) => seq![chop_cr(bs.take(i))] + split_lines(bs.skip(i + 1)),
        }
    }
}

#[via_fn]
proof fn split_lines_decreases(bs: Seq<u8>) {
    lemma_find_byte_bounds(bs, 10);
}

/// The last `n` elements of a sequence of lines (all of them if fewer).
pub open spec fn keep_last<T>(s: Seq<T>, n: nat) -> Seq<T> {
    if s.len() > n {
        s.skip(s.len() - n)
    } else {
        s
    }
}

/// Whether every line of `bs` is valid UTF-8 — a line-oriented read of the
/// output log fails otherwise.
pub open spec fn lines_decodable(bs: Seq<u8>) -> bool {
    forall|i: int| 0 <= i < split_lines(bs).len() ==> valid_utf8(#[trigger] split_lines(bs)[i])
}

/// The last `n` lines of `bs`, decoded.
pub open spec fn spec_last_lines(bs: Seq<u8>, n: nat) -> Seq<Seq<char>> {
    keep_last(split_lines(bs), n).map_values(|l: Seq<u8>| decode_utf8(l))
}

/// Split raw bytes into lines.
fn split_line_chunks(bs: &[u8]) -> (r: Vec<Vec<u8>>)
    ensures
        r.deep_view() == split_lines(bs@),
{
    let n = bs.len();
    let mut out: Vec<Vec<u8>> = Vec::new();
    let mut start: usize = 0;
    let mut i: usize = 0;
    proof {
        assert(bs@.skip(0) =~= bs@);
        assert(out.deep_view() + split_lines(bs@) =~= split_lines(bs@));
    }
    while i < n
        invariant
            n == bs@.len(),
            start <= i <= n,
            forall|j: int| start <= j < i ==> bs@[j] != 10,
            split_lines(bs@) == out.deep_view() + split_lines(bs@.skip(start as int)),
        decreases n - i,
    {
        if bs[i] == 10 {
            let ghost rest = bs@.skip(start as int);
            let mut line: Vec<u8> = Vec::new();
            let line_end = if i > start && bs[i - 1] == 13 {
                i - 1
            } else {
                i
            };
            let mut k: usize = start;
            while k < line_end
                invariant
                    start <= k <= line_end <= n,
                    n == bs@.len(),
                    line@ == bs@.subrange(start as int, k as int),
                decreases line_end - k,
            {
                line.push(bs[k]);
                proof {
                    assert(line@ =~= bs@.subrange(start as int, k + 1 as int));
                }
                k = k + 1;
            }
            proof {
                assert forall|j: int| 0 <= j < i - start implies rest[j] != 10 by {
                    assert(rest[j] == bs@[start + j]);
                }
                assert(rest[i - start] == 10);
                lemma_find_byte_at(rest, 10, i - start);
                assert(rest.take(i - start) =~= bs@.subrange(start as int, i as int));
                assert(chop_cr(rest.take(i - start)) =~= line@);
                assert(rest.skip(i - start + 1) =~= bs@.skip(i + 1 as int));
                assert(split_lines(rest) == seq![chop_cr(rest.take(i - start))] + split_lines(
                    bs@.skip(i + 1 as int),
                ));
            }
            let ghost out0 = out.deep_view();
            proof {
                assert(line.deep_view() =~= line@);
            }
            out.push(line);
            proof {
                assert(out.deep_view() =~= out0.push(line@));
                assert(split_lines(bs@) =~= out.deep_view() + split_lines(bs@.skip(i + 1 as int)));
            }
            start = i + 1;
        }
        i = i + 1;
    }
    let ghost rest = bs@.skip(start as int);
    if start < n {
        let mut line: Vec<u8> = Vec::new();
        let mut k: usize = start;
        while k < n
            invariant
                start <= k <= n,
                n == bs@.len(),
                line@ == bs@.subrange(start as int, k as int),
            decreases n - k,
        {
            line.push(bs[k]);
            proof {
                assert(line@ =~= bs@.subrange(start as int, k + 1 as int));
            }
            k = k + 1;
        }
        proof {
            assert forall|j: int| 0 <= j < rest.len() implies rest[j] != 10 by {
                assert(rest[j] == bs@[start + j]);
            }
            lemma_find_byte_none(rest, 10);
            assert(split_lines(rest) == seq![rest]);
            assert(line@ =~= rest);
        }
        let ghost out0 = out.deep_view();
        proof {
            assert(line.deep_view() =~= line@);
        }
        out.push(line);
        proof {
            assert(out.deep_view() =~= out0.push(line@));
            assert(split_lines(bs@) =~= out.deep_view());
        }
    } else {
        proof {
            assert(rest =~= Seq::<u8>::empty());
            assert(split_lines(bs@) =~= out.deep_view());
        }
    }
    out
}

/// The last `n` lines of a raw fragment of the output log, decoded strictly:
/// `None` when some line is not valid UTF-8, as a line-oriented read of the
/// log would fail.
pub fn last_n_lines(bs: &[u8], n: usize) -> (r: Option<Vec<String>>)
    ensures
        r is Some <==> lines_decodable(bs@),
        r matches Some(lines) ==> lines.deep_view() == spec_last_lines(bs@, n as nat),
{
    let chunks = split_line_chunks(bs);
    let total = chunks.len();
    let start = if total > n {
        total - n
    } else {
        0
    };
    let ghost all = split_lines(bs@);
    proof {
        assert(all.len() == total);
    }
    let mut out: Vec<String> = Vec::new();
    // Decode every line, not only the kept window: one undecodable line
    // anywhere in the read fails it, as the line-oriented reader does.
    let mut i: usize = 0;
    while i < total
        invariant
            all == split_lines(bs@),
            total == all.len(),
            chunks.deep_view() == all,
            chunks@.len() == total,
            start == if total > n { (total - n) as usize } else { 0usize },
            i <= total,
            out@.len() == if i > start { i - start } else { 0 },
            forall|j: int| 0 <= j < i ==> valid_utf8(#[trigger] all[j]),
            forall|j: int| 0 <= j < out@.len() ==> (#[trigger] out@[j])@ == decode_utf8(
                all[start + j],
            ),
        decreases total - i,
    {
        proof {
            assert(chunks.deep_view()[i as int] == chunks@[i as int].deep_view());
            assert(chunks@[i as int].deep_view() =~= chunks@[i as int]@);
        }
        match decode_strict(chunks[i].as_slice()) {
            None => {
                proof {
                    assert(!valid_utf8(all[i as int]));
                    assert(!lines_decodable(bs@)) by {
                        assert(split_lines(bs@)[i as int] == all[i as int]);
                    }
                }
                return None;
            },
            Some(s) => {
                if i >= start {
                    out.push(s);
                }
            },
        }
        i = i + 1;
    }
    proof {
        let kept = keep_last(all, n as nat);
        assert(kept =~= all.subrange(start as int, total as int));
        assert(out.deep_view() =~= spec_last_lines(bs@, n as nat)) by {
            assert(out.deep_view().len() == kept.len());
            assert forall|j: int| 0 <= j < kept.len() implies out.deep_view()[j]
                == spec_last_lines(bs@, n as nat)[j] by {
                assert(out.deep_view()[j] == out@[j]@);
                assert(out@[j]@ == decode_utf8(all[start + j]));
                assert(spec_last_lines(bs@, n as nat)[j] == decode_utf8(kept[j]));
            }
        }
    }
    Some(out)
}

/// Whether `p` occurs in `s` starting at position `i`.
pub open spec fn contains_at(s: Seq<char>, p: Seq<char>, i: int) -> bool {
    0 <= i && i + p.len() <= s.len() && s.subrange(i, i + p.len()) == p
}

/// Whether `p` occurs in `s` as a contiguous subsequence.
pub open spec fn spec_contains(s: Seq<char>, p: Seq<char>) -> bool {
    exists|i: int| contains_at(s, p, i)
}

/// Whether the text `hay` contains `pat`, character for character.
pub fn text_contains(hay: &str, pat: &str) -> (r: bool)
    ensures
        r == spec_contains(hay@, pat@),
{
    let nh = hay.unicode_len();
    let np = pat.unicode_len();
    if np > nh {
        proof {
            assert forall|i: int| !contains_at(hay@, pat@, i) by {}
        }
        return false;
    }
    let mut start: usize = 0;
    while start <= nh - np
        invariant
            nh == hay@.len(),
            np == pat@.len(),
            np <= nh,
            start <= nh - np + 1,
            forall|k: int| 0 <= k < start ==> !contains_at(hay@, pat@, k),
        decreases nh - np - start + 1,
    {
        let mut j: usize = 0;
        while j < np && hay.get_char(start + j) == pat.get_char(j)
            invariant
                nh == hay@.len(),
                np == pat@.len(),
                start + np <= nh,
                j <= np,
                forall|t: int| 0 <= t < j ==> hay@[start + t] == pat@[t],
            decreases np - j,
        {
            j = j + 1;
        }
        if j == np {
            proof {
                assert(hay@.subrange(start as int, start + np) =~= pat@);
                assert(contains_at(hay@, pat@, start as int));
            }
            return true;
        }
        proof {
            assert(!contains_at(hay@, pat@, start as int)) by {
                assert(hay@[start + j] != pat@[j as int]);
                if contains_at(hay@, pat@, start as int) {
                    assert(hay@.subrange(start as int, start + np)[j as int] == pat@[j as int]);
                }
            }
        }
        start = start + 1;
    }
    proof {
        assert forall|k: int| !contains_at(hay@, pat@, k) by {
            if 0 <= k && k + pat@.len() <= hay@.len() {
                assert(k < start);
            }
        }
    }
    false
}

/// The position of the last line of the window that contains the prompt, if
/// any: the most recent prompt occurrence.
pub open spec fn last_match(lines: Seq<Seq<char>>, p: Seq<char>) -> Option<int>
    decreases lines.len(),
{
    if lines.len() == 0 {
        None
    } else if spec_contains(lines.last(), p) {
        Some(lines.len() - 1)
    } else {
        last_match(lines.drop_last(), p)
    }
}

/// A line that contains the prompt, with none after it, pins down
/// `last_match`.
proof fn lemma_last_match_at(lines: Seq<Seq<char>>, p: Seq<char>, i: int)
    requires
        0 <= i < lines.len(),
        spec_contains(lines[i], p),
        forall|j: int| i < j < lines.len() ==> !spec_contains(#[trigger] lines[j], p),
    ensures
        last_match(lines, p) == Some(i),
    decreases lines.len(),
{
    if i == lines.len() - 1 {
    } else {
        assert(!spec_contains(lines.last(), p));
        assert(lines.drop_last()[i] == lines[i]);
        assert forall|j: int| i < j < lines.drop_last().len() implies !spec_contains(
            #[trigger] lines.drop_last()[j],
            p,
        ) by {
            assert(lines.drop_last()[j] == lines[j]);
        }
        lemma_last_match_at(lines.drop_last(), p, i);
    }
}

/// With no line containing the prompt, `last_match` finds nothing.
proof fn lemma_last_match_none(lines: Seq<Seq<char>>, p: Seq<char>)
    requires
        forall|j: int| 0 <= j < lines.len() ==> !spec_contains(#[trigger] lines[j], p),
    ensures
        last_match(lines, p) is None,
    decreases lines.len(),
{
    if lines.len() > 0 {
        assert forall|j: int| 0 <= j < lines.drop_last().len() implies !spec_contains(
            #[trigger] lines.drop_last()[j],
            p,
        ) by {
            assert(lines.drop_last()[j] == lines[j]);
        }
        lemma_last_match_none(lines.drop_last(), p);
    }
}

/// The position of the last line before `end` that contains the prompt, if
/// any.
fn find_last_match_before(lines: &Vec<String>, end: usize, prompt: &str) -> (r: Option<usize>)
    requires
        end <= lines@.len(),
    ensures
        r matches Some(i) ==> i < end && Some(i as int) == last_match(
            lines.deep_view().take(end as int),
            prompt@,
        ),
        r is None ==> last_match(lines.deep_view().take(end as int), prompt@) is None,
{
    let ghost lv = lines.deep_view().take(end as int);
    let mut i: usize = end;
    while i > 0
        invariant
            end <= lines@.len(),
            lv == lines.deep_view().take(end as int),
            i <= end,
            forall|j: int| i <= j < end ==> !spec_contains(#[trigger] lv[j], prompt@),
        decreases i,
    {
        proof {
            assert(lv[i - 1] == lines.deep_view()[i - 1]);
            assert(lines.deep_view()[i - 1] == lines@[i - 1]@);
        }
        if text_contains(lines[i - 1].as_str(), prompt) {
            proof {
                lemma_last_match_at(lv, prompt@, i - 1);
            }
            return Some(i - 1);
        }
        i = i - 1;
    }
    proof {
        lemma_last_match_none(lv, prompt@);
    }
    None
}

/// Clones of `lines[from..to]`.
fn copy_range(lines: &Vec<String>, from: usize, to: usize) -> (r: Vec<String>)
    requires
        from <= to <= lines@.len(),
    ensures
        r.deep_view() == lines.deep_view().subrange(from as int, to as int),
{
    let mut out: Vec<String> = Vec::new();
    let mut k: usize = from;
    while k < to
        invariant
            from <= k <= to <= lines@.len(),
            out.deep_view() == lines.deep_view().subrange(from as int, k as int),
        decreases to - k,
    {
        let ghost out0 = out.deep_view();
        out.push(lines[k].clone());
        proof {
            assert(out.deep_view() =~= out0.push(lines@[k as int]@));
            assert(lines.deep_view()[k as int] == lines@[k as int]@);
            assert(out.deep_view() =~= lines.deep_view().subrange(from as int, k + 1 as int));
        }
        k = k + 1;
    }
    out
}

/// The window from the most recent prompt occurrence to its end, that
/// occurrence included; empty when the window holds no occurrence, which is
/// no error — the caller may widen the window.
pub fn tail_since(lines: &Vec<String>, prompt: &str) -> (r: Vec<String>)
    ensures
        last_match(lines.deep_view(), prompt@) is None ==> r@.len() == 0,
        last_match(lines.deep_view(), prompt@) matches Some(i) ==> r.deep_view()
            == lines.deep_view().skip(i),
{
    proof {
        assert(lines.deep_view().take(lines@.len() as int) =~= lines.deep_view());
    }
    match find_last_match_before(lines, lines.len(), prompt) {
        None => Vec::new(),
        Some(i) => {
            let r = copy_range(lines, i, lines.len());
            proof {
                assert(lines.deep_view().subrange(i as int, lines@.len() as int)
                    =~= lines.deep_view().skip(i as int));
            }
            r
        },
    }
}

/// The stanza between the two most recent prompt occurrences: the lines from
/// the second-to-last occurrence up to, and not including, the last one.
/// With a single occurrence in the window, best effort: everything from that
/// occurrence on.  With none, empty.
pub fn tail_delim(lines: &Vec<String>, prompt: &str) -> (r: Vec<String>)
    ensures
        last_match(lines.deep_view(), prompt@) is None ==> r@.len() == 0,
        last_match(lines.deep_view(), prompt@) matches Some(i) ==> (last_match(
            lines.deep_view().take(i),
            prompt@,
        ) matches Some(j) ==> r.deep_view() == lines.deep_view().subrange(j, i)),
        last_match(lines.deep_view(), prompt@) matches Some(i) ==> (last_match(
            lines.deep_view().take(i),
            prompt@,
        ) is None ==> r.deep_view() == lines.deep_view().skip(i)),
{
    proof {
        assert(lines.deep_view().take(lines@.len() as int) =~= lines.deep_view());
    }
    match find_last_match_before(lines, lines.len(), prompt) {
        None => Vec::new(),
        Some(i) => {
            match find_last_match_before(lines, i, prompt) {
                Some(j) => copy_range(lines, j, i),
                None => {
                    let r = copy_range(lines, i, lines.len());
                    proof {
                        assert(lines.deep_view().subrange(i as int, lines@.len() as int)
                            =~= lines.deep_view().skip(i as int));
                    }
                    r
                },
            }
        },
    }
}

} // verus!
