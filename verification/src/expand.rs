//! Stage four: dash-compound expansion.
//!
//! A maximal run of two or more consecutive tokens in which every adjacent
//! pair is separated by a non-empty run of dash-like characters yields, in
//! addition to the individual tokens (which are all kept, in order), exactly
//! one extra compound token spanning from the first token's start to the
//! last token's end. The compound follows the last token of its run; one
//! compound per maximal run, not one per adjacent pair.

use crate::classes::dash_like;
use crate::classes::is_dash;
use crate::segment::ranges_view;
use crate::split::gaps_word_free;
use crate::split::ranges_wf;
use crate::split::span_word_free;
use crate::token::lemma_span_text_across_bridge;
use crate::token::span_text;
use vstd::prelude::*;

verus! {

/// The characters `s[from..to)` form a non-empty run of dash-like
/// characters.
pub open spec fn dash_run(s: Seq<char>, from: int, to: int) -> bool {
    &&& from < to
    &&& forall|j: int| from <= j < to ==> dash_like(#[trigger] s[j])
}

/// Closes the run `ms[from..to)`: its tokens in order, followed by one
/// compound spanning the whole run when it has at least two tokens.
pub open spec fn close_run(ms: Seq<(int, int)>, from: int, to: int) -> Seq<(int, int)> {
    if to - from >= 2 {
        ms.subrange(from, to).push((ms[from].0, ms[to - 1].1))
    } else {
        ms.subrange(from, to)
    }
}

/// The left-to-right expansion scan: `start` opens the dash-bridged run the
/// scan is inside; a dash gap extends the run, anything else closes it.
pub open spec fn expand_scan(s: Seq<char>, ms: Seq<(int, int)>, i: int, start: int) -> Seq<
    (int, int),
>
    decreases ms.len() - i,
{
    if i >= ms.len() {
        close_run(ms, start, i)
    } else if dash_run(s, ms[i - 1].1, ms[i].0) {
        expand_scan(s, ms, i + 1, start)
    } else {
        close_run(ms, start, i) + expand_scan(s, ms, i + 1, i)
    }
}

/// The final token ranges: every merged token, plus one compound per
/// maximal dash-bridged run of length at least two.
pub open spec fn expand_tokens(s: Seq<char>, ms: Seq<(int, int)>) -> Seq<(int, int)> {
    if ms.len() == 0 {
        Seq::empty()
    } else {
        expand_scan(s, ms, 1, 0)
    }
}

/// Ranges are non-empty and lie within `[0, hi)`; unlike [`ranges_wf`] this
/// claims no ordering, since a compound overlaps the tokens of its run.
pub open spec fn ranges_valid(rs: Seq<(int, int)>, hi: int) -> bool {
    forall|k: int| 0 <= k < rs.len() ==> 0 <= (#[trigger] rs[k]).0 < rs[k].1 <= hi
}

/// A closed run consists of valid ranges.
pub proof fn lemma_close_run_valid(ms: Seq<(int, int)>, from: int, to: int, hi: int)
    requires
        ranges_wf(ms, 0, hi),
        0 <= from < to <= ms.len(),
    ensures
        ranges_valid(close_run(ms, from, to), hi),
{
    if to - from >= 2 {
        assert(ms[from].1 <= ms[to - 1].0);
    }
}

/// The expansion yields valid ranges.
pub proof fn lemma_expand_scan_valid(s: Seq<char>, ms: Seq<(int, int)>, i: int, start: int)
    requires
        ranges_wf(ms, 0, s.len() as int),
        0 <= start < i <= ms.len(),
    ensures
        ranges_valid(expand_scan(s, ms, i, start), s.len() as int),
    decreases ms.len() - i,
{
    if i >= ms.len() {
        lemma_close_run_valid(ms, start, i, s.len() as int);
    } else if dash_run(s, ms[i - 1].1, ms[i].0) {
        lemma_expand_scan_valid(s, ms, i + 1, start);
    } else {
        lemma_close_run_valid(ms, start, i, s.len() as int);
        lemma_expand_scan_valid(s, ms, i + 1, i);
    }
}

/// The final token ranges are valid.
pub proof fn lemma_expand_tokens_valid(s: Seq<char>, ms: Seq<(int, int)>)
    requires
        ranges_wf(ms, 0, s.len() as int),
    ensures
        ranges_valid(expand_tokens(s, ms), s.len() as int),
{
    if ms.len() > 0 {
        lemma_expand_scan_valid(s, ms, 1, 0);
    }
}

/// The expansion scan under a complete chain of dash bridges keeps the run
/// open to the end, closing it exactly once.
proof fn lemma_expand_scan_chain(s: Seq<char>, ms: Seq<(int, int)>, i: int, start: int)
    requires
        1 <= i <= ms.len(),
        forall|k: int| i <= k < ms.len() ==> dash_run(s, (#[trigger] ms[k - 1]).1, ms[k].0),
    ensures
        expand_scan(s, ms, i, start) == close_run(ms, start, ms.len() as int),
    decreases ms.len() - i,
{
    if i < ms.len() {
        lemma_expand_scan_chain(s, ms, i + 1, start);
    }
}

/// Compounding is per maximal run, not pairwise: a run of `N >= 2` tokens
/// in which every adjacent pair is bridged by a non-empty dash run yields
/// the `N` tokens unchanged and in order, followed by exactly one compound
/// spanning from the first token's start to the last token's end.
pub proof fn lemma_dash_run_adds_one_compound(s: Seq<char>, ms: Seq<(int, int)>)
    requires
        ms.len() >= 2,
        forall|k: int| 0 <= k < ms.len() - 1 ==> dash_run(s, (#[trigger] ms[k]).1, ms[k + 1].0),
    ensures
        expand_tokens(s, ms) == ms.push((ms[0].0, ms[ms.len() - 1].1)),
{
    assert forall|k: int| 1 <= k < ms.len() implies dash_run(s, (#[trigger] ms[k - 1]).1, ms[k].0) by {
        assert(dash_run(s, ms[k - 1].1, ms[(k - 1) + 1].0));
    }
    lemma_expand_scan_chain(s, ms, 1, 0);
    assert(ms.subrange(0, ms.len() as int) =~= ms);
}

/// The texts of a run of token ranges, concatenated in order.
pub open spec fn run_texts(s: Seq<char>, rs: Seq<(int, int)>) -> Seq<char>
    decreases rs.len(),
{
    if rs.len() == 0 {
        Seq::empty()
    } else {
        span_text(s, rs[0]) + run_texts(s, rs.drop_first())
    }
}

/// A compound token concatenates its run members' texts, the bridges
/// dropped: for ordered, disjoint ranges whose gaps hold no word-forming
/// character — as the pipeline's gaps never do — the text of the span from
/// the first range's start to the last range's end is exactly the members'
/// texts back to back.
pub proof fn lemma_compound_text_concatenates(s: Seq<char>, ms: Seq<(int, int)>)
    requires
        ms.len() >= 1,
        ranges_wf(ms, 0, s.len() as int),
        gaps_word_free(s, ms),
    ensures
        span_text(s, (ms[0].0, ms[ms.len() - 1].1)) == run_texts(s, ms),
    decreases ms.len(),
{
    if ms.len() == 1 {
        assert(ms[0] == (ms[0].0, ms[0].1));
        assert(run_texts(s, ms.drop_first()) == Seq::<char>::empty());
        assert(span_text(s, ms[0]) + Seq::<char>::empty() =~= span_text(s, ms[0]));
    } else {
        let rest = ms.drop_first();
        let last = ms.len() - 1;
        assert forall|k: int| 0 <= k < rest.len() implies 0 <= (#[trigger] rest[k]).0 < rest[k].1
            <= s.len() by {
            assert(rest[k] == ms[k + 1]);
        }
        assert forall|k: int, m: int| 0 <= k < m < rest.len() implies (#[trigger] rest[k]).1 <= (
        #[trigger] rest[m]).0 by {
            assert(rest[k] == ms[k + 1]);
            assert(rest[m] == ms[m + 1]);
        }
        assert forall|k: int| 0 <= k < rest.len() - 1 implies span_word_free(
            s,
            (#[trigger] rest[k]).1,
            rest[k + 1].0,
        ) by {
            assert(rest[k] == ms[k + 1]);
            assert(rest[k + 1] == ms[k + 2]);
            assert(span_word_free(s, ms[k + 1].1, ms[k + 2].0));
        }
        lemma_compound_text_concatenates(s, rest);
        assert(rest[0] == ms[1]);
        assert(rest[rest.len() - 1] == ms[last]);
        assert(span_word_free(s, ms[0].1, ms[1].0));
        if last > 1 {
            assert(ms[1].1 <= ms[last].0);
        }
        lemma_span_text_across_bridge(s, ms[0].0, ms[0].1, ms[1].0, ms[last].1);
        assert(ms[0] == (ms[0].0, ms[0].1));
        assert(span_text(s, (ms[0].0, ms[last].1)) == span_text(s, ms[0]) + span_text(
            s,
            (ms[1].0, ms[last].1),
        ));
    }
}

/// Whether every character of `chars[from..to)` is dash-like.
pub(crate) fn all_dash(chars: &Vec<char>, from: usize, to: usize) -> (r: bool)
    requires
        from <= to <= chars@.len(),
    ensures
        r == (forall|j: int| from <= j < to ==> dash_like(#[trigger] chars@[j])),
{
    let mut j = from;
    while j < to
        invariant
            from <= j <= to <= chars@.len(),
            forall|m: int| from <= m < j ==> dash_like(#[trigger] chars@[m]),
        decreases to - j,
    {
        if !is_dash(chars[j]) {
            proof {
                assert(!dash_like(chars@[j as int]));
            }
            return false;
        }
        j += 1;
    }
    true
}

/// Appends the tokens of the run `ms[from..to)` and, when the run has at
/// least two of them, its compound token.
pub(crate) fn close_run_exec(
    ms: &Vec<(usize, usize)>,
    from: usize,
    to: usize,
    out: &mut Vec<(usize, usize)>,
)
    requires
        from < to <= ms@.len(),
    ensures
        ranges_view(final(out)@) == ranges_view(old(out)@) + close_run(
            ranges_view(ms@),
            from as int,
            to as int,
        ),
{
    let ghost msv = ranges_view(ms@);
    let ghost base = ranges_view(old(out)@);
    let mut k = from;
    proof {
        assert(msv.subrange(from as int, from as int) =~= Seq::<(int, int)>::empty());
        assert(ranges_view(out@) + msv.subrange(from as int, from as int) =~= ranges_view(out@));
    }
    while k < to
        invariant
            from <= k <= to <= ms@.len(),
            msv == ranges_view(ms@),
            ranges_view(out@) == base + msv.subrange(from as int, k as int),
        decreases to - k,
    {
        let ghost pre = out@;
        out.push(ms[k]);
        proof {
            assert(msv[k as int] == (ms@[k as int].0 as int, ms@[k as int].1 as int));
            assert(ranges_view(out@) =~= ranges_view(pre) + seq![msv[k as int]]);
            assert(msv.subrange(from as int, k + 1 as int) =~= msv.subrange(
                from as int,
                k as int,
            ).push(msv[k as int]));
            assert((base + msv.subrange(from as int, k as int)) + seq![msv[k as int]] =~= base
                + msv.subrange(from as int, k + 1 as int));
        }
        k += 1;
    }
    if to - from >= 2 {
        let ghost pre = out@;
        let compound = (ms[from].0, ms[to - 1].1);
        out.push(compound);
        proof {
            assert(ranges_view(out@) =~= ranges_view(pre) + seq![
                (compound.0 as int, compound.1 as int),
            ]);
            assert((compound.0 as int, compound.1 as int) == (msv[from as int].0, msv[to - 1].1));
            assert(close_run(msv, from as int, to as int) == msv.subrange(
                from as int,
                to as int,
            ).push((msv[from as int].0, msv[to - 1].1)));
            assert(ranges_view(out@) =~= base + close_run(msv, from as int, to as int));
        }
    } else {
        proof {
            assert(close_run(msv, from as int, to as int) == msv.subrange(from as int, to as int));
        }
    }
}

/// Expands dash-bridged runs: every token is kept, and each maximal run of
/// at least two gains one compound token after its last member.
pub(crate) fn expand_all(chars: &Vec<char>, ms: &Vec<(usize, usize)>) -> (out: Vec<(usize, usize)>)
    requires
        ranges_wf(ranges_view(ms@), 0, chars@.len() as int),
    ensures
        ranges_view(out@) == expand_tokens(chars@, ranges_view(ms@)),
{
    let ghost s = chars@;
    let ghost msv = ranges_view(ms@);
    let mut out: Vec<(usize, usize)> = Vec::new();
    let n = ms.len();
    if n == 0 {
        proof {
            assert(ranges_view(out@) =~= expand_tokens(s, msv));
        }
        return out;
    }
    let mut start: usize = 0;
    let mut i: usize = 1;
    proof {
        assert(ranges_view(out@) + expand_scan(s, msv, 1, 0) =~= expand_scan(s, msv, 1, 0));
    }
    while i < n
        invariant
            chars@ == s,
            msv == ranges_view(ms@),
            n == ms@.len() == msv.len(),
            ranges_wf(msv, 0, s.len() as int),
            1 <= i <= n,
            start < i,
            expand_tokens(s, msv) == ranges_view(out@) + expand_scan(s, msv, i as int, start as int),
        decreases n - i,
    {
        let prev_end = ms[i - 1].1;
        let next_start = ms[i].0;
        proof {
            assert(msv[i - 1 as int] == (ms@[i - 1 as int].0 as int, ms@[i - 1 as int].1 as int));
            assert(msv[i as int] == (ms@[i as int].0 as int, ms@[i as int].1 as int));
            assert(prev_end <= next_start);
            assert(next_start <= s.len());
        }
        let bridged = prev_end < next_start && all_dash(chars, prev_end, next_start);
        if !bridged {
            let ghost pre = ranges_view(out@);
            close_run_exec(ms, start, i, &mut out);
            proof {
                assert(expand_scan(s, msv, i as int, start as int) == close_run(
                    msv,
                    start as int,
                    i as int,
                ) + expand_scan(s, msv, i + 1, i as int));
                assert(pre + (close_run(msv, start as int, i as int) + expand_scan(
                    s,
                    msv,
                    i + 1,
                    i as int,
                )) =~= (pre + close_run(msv, start as int, i as int)) + expand_scan(
                    s,
                    msv,
                    i + 1,
                    i as int,
                ));
            }
            start = i;
        }
        i += 1;
    }
    let ghost pre = ranges_view(out@);
    close_run_exec(ms, start, n, &mut out);
    proof {
        assert(expand_scan(s, msv, n as int, start as int) == close_run(
            msv,
            start as int,
            n as int,
        ));
    }
    out
}

} // verus!
