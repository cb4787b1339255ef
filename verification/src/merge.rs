//! Stage three: cross-word apostrophe merging.
//!
//! When only a non-empty run of apostrophe-like characters separates two
//! consecutive pending tokens — for instance when a word boundary fell
//! exactly on the apostrophe — the two fuse into one token spanning both.
//! The merge chains left-associatively, so three or more tokens bridged by
//! apostrophe runs all fuse into one.

use crate::classes::apostrophe_like;
use crate::classes::is_apostrophe;
use crate::segment::ranges_view;
use crate::split::gaps_word_free;
use crate::split::ranges_wf;
use crate::split::span_word_free;
use crate::token::lemma_span_text_across_bridge;
use crate::token::span_text;
use vstd::prelude::*;

verus! {

/// The characters `s[from..to)` form a non-empty run of apostrophe-like
/// characters.
pub open spec fn apos_run(s: Seq<char>, from: int, to: int) -> bool {
    &&& from < to
    &&& forall|j: int| from <= j < to ==> apostrophe_like(#[trigger] s[j])
}

/// The left-to-right merge scan: `cur` is the token accumulated so far; when
/// only a run of apostrophes separates it from the next token, the two fuse
/// into one range spanning both; otherwise `cur` is emitted as it stands.
pub open spec fn merge_scan(s: Seq<char>, ps: Seq<(int, int)>, i: int, cur: (int, int)) -> Seq<
    (int, int),
>
    decreases ps.len() - i,
{
    if i >= ps.len() {
        seq![cur]
    } else if apos_run(s, cur.1, ps[i].0) {
        merge_scan(s, ps, i + 1, (cur.0, ps[i].1))
    } else {
        seq![cur] + merge_scan(s, ps, i + 1, ps[i])
    }
}

/// The pending tokens after merging across apostrophe runs, in text order.
pub open spec fn merge_tokens(s: Seq<char>, ps: Seq<(int, int)>) -> Seq<(int, int)> {
    if ps.len() == 0 {
        Seq::empty()
    } else {
        merge_scan(s, ps, 1, ps[0])
    }
}

/// Merging keeps the ranges non-empty, ordered and disjoint.
pub proof fn lemma_merge_scan_wf(s: Seq<char>, ps: Seq<(int, int)>, i: int, cur: (int, int))
    requires
        ranges_wf(ps, 0, s.len() as int),
        1 <= i <= ps.len(),
        0 <= cur.0 < cur.1 <= s.len(),
        i < ps.len() ==> cur.1 <= ps[i].0,
    ensures
        ranges_wf(merge_scan(s, ps, i, cur), cur.0, s.len() as int),
    decreases ps.len() - i,
{
    if i >= ps.len() {
    } else if apos_run(s, cur.1, ps[i].0) {
        lemma_merge_scan_wf(s, ps, i + 1, (cur.0, ps[i].1));
    } else {
        lemma_merge_scan_wf(s, ps, i + 1, ps[i]);
        let rest = merge_scan(s, ps, i + 1, ps[i]);
        let whole = seq![cur] + rest;
        assert forall|k: int, m: int| 0 <= k < m < whole.len() implies (#[trigger] whole[k]).1 <= (
        #[trigger] whole[m]).0 by {
            if k == 0 {
                assert(whole[m] == rest[m - 1]);
                assert(ps[i].0 <= rest[m - 1].0);
            } else {
                assert(whole[k] == rest[k - 1]);
                assert(whole[m] == rest[m - 1]);
            }
        }
    }
}

/// Merging the whole pending list keeps the ranges well-formed.
pub proof fn lemma_merge_tokens_wf(s: Seq<char>, ps: Seq<(int, int)>)
    requires
        ranges_wf(ps, 0, s.len() as int),
    ensures
        ranges_wf(merge_tokens(s, ps), 0, s.len() as int),
{
    if ps.len() > 0 {
        lemma_merge_scan_wf(s, ps, 1, ps[0]);
    }
}

/// Each gap the merge scan leaves behind is a gap of the original list.
proof fn lemma_merge_scan_gap_free(s: Seq<char>, ps: Seq<(int, int)>, i: int, cur: (int, int))
    requires
        gaps_word_free(s, ps),
        1 <= i <= ps.len(),
        cur.1 == ps[i - 1].1,
    ensures
        merge_scan(s, ps, i, cur).len() >= 1,
        merge_scan(s, ps, i, cur)[0].0 == cur.0,
        gaps_word_free(s, merge_scan(s, ps, i, cur)),
    decreases ps.len() - i,
{
    let res = merge_scan(s, ps, i, cur);
    if i >= ps.len() {
    } else if apos_run(s, cur.1, ps[i].0) {
        lemma_merge_scan_gap_free(s, ps, i + 1, (cur.0, ps[i].1));
    } else {
        lemma_merge_scan_gap_free(s, ps, i + 1, ps[i]);
        let rest = merge_scan(s, ps, i + 1, ps[i]);
        assert(rest[0].0 == ps[i].0);
        assert forall|k: int| 0 <= k < res.len() - 1 implies span_word_free(
            s,
            (#[trigger] res[k]).1,
            res[k + 1].0,
        ) by {
            if k == 0 {
                assert(res[0] == cur);
                assert(res[1] == rest[0]);
                assert(span_word_free(s, ps[i - 1].1, ps[i].0));
            } else {
                assert(res[k] == rest[k - 1]);
                assert(res[k + 1] == rest[k]);
                assert(span_word_free(s, rest[k - 1].1, rest[k].0));
            }
        }
    }
}

/// Merging closes gaps and opens none: when no gap of the pending list
/// holds a word-forming character, neither does any gap of the merged
/// list.
pub proof fn lemma_merge_keeps_gaps_word_free(s: Seq<char>, ps: Seq<(int, int)>)
    requires
        gaps_word_free(s, ps),
    ensures
        gaps_word_free(s, merge_tokens(s, ps)),
{
    if ps.len() > 0 {
        lemma_merge_scan_gap_free(s, ps, 1, ps[0]);
    }
}

/// The merge scan under a complete chain of apostrophe bridges fuses
/// everything into the accumulated token, extended to the last range's end.
proof fn lemma_merge_scan_chain(s: Seq<char>, ps: Seq<(int, int)>, i: int, cur: (int, int))
    requires
        1 <= i <= ps.len(),
        i < ps.len() ==> apos_run(s, cur.1, ps[i].0),
        forall|k: int| i <= k < ps.len() - 1 ==> apos_run(s, (#[trigger] ps[k]).1, ps[k + 1].0),
    ensures
        merge_scan(s, ps, i, cur) == seq![
            (
                cur.0,
                if i < ps.len() {
                    ps[ps.len() - 1].1
                } else {
                    cur.1
                },
            ),
        ],
    decreases ps.len() - i,
{
    if i < ps.len() {
        lemma_merge_scan_chain(s, ps, i + 1, (cur.0, ps[i].1));
    }
}

/// Merging chains left-associatively: when every adjacent pair of pending
/// tokens is bridged by a non-empty apostrophe run, they all — two, three
/// or more — merge into one token spanning from the first token's start to
/// the last token's end.
pub proof fn lemma_apostrophe_chain_merges_to_one(s: Seq<char>, ps: Seq<(int, int)>)
    requires
        ps.len() >= 1,
        forall|k: int| 0 <= k < ps.len() - 1 ==> apos_run(s, (#[trigger] ps[k]).1, ps[k + 1].0),
    ensures
        merge_tokens(s, ps) == seq![(ps[0].0, ps[ps.len() - 1].1)],
{
    lemma_merge_scan_chain(s, ps, 1, ps[0]);
}

/// Merging concatenates text and drops the bridge: an apostrophe-like
/// character is never word-forming, so a token spanning two ranges bridged
/// by apostrophes has exactly the two ranges' texts, in order.
pub proof fn lemma_merged_token_text(s: Seq<char>, a: int, b: int, c: int, d: int)
    requires
        0 <= a <= b <= c <= d <= s.len(),
        forall|j: int| b <= j < c ==> apostrophe_like(#[trigger] s[j]),
    ensures
        span_text(s, (a, d)) == span_text(s, (a, b)) + span_text(s, (c, d)),
{
    lemma_span_text_across_bridge(s, a, b, c, d);
}

/// Whether every character of `chars[from..to)` is apostrophe-like.
pub(crate) fn all_apos(chars: &Vec<char>, from: usize, to: usize) -> (r: bool)
    requires
        from <= to <= chars@.len(),
    ensures
        r == (forall|j: int| from <= j < to ==> apostrophe_like(#[trigger] chars@[j])),
{
    let mut j = from;
    while j < to
        invariant
            from <= j <= to <= chars@.len(),
            forall|m: int| from <= m < j ==> apostrophe_like(#[trigger] chars@[m]),
        decreases to - j,
    {
        if !is_apostrophe(chars[j]) {
            proof {
                assert(!apostrophe_like(chars@[j as int]));
            }
            return false;
        }
        j += 1;
    }
    true
}

/// Merges consecutive pending tokens separated only by apostrophe runs.
pub(crate) fn merge_all(chars: &Vec<char>, ps: &Vec<(usize, usize)>) -> (out: Vec<(usize, usize)>)
    requires
        ranges_wf(ranges_view(ps@), 0, chars@.len() as int),
    ensures
        ranges_view(out@) == merge_tokens(chars@, ranges_view(ps@)),
{
    let ghost s = chars@;
    let ghost psv = ranges_view(ps@);
    let mut out: Vec<(usize, usize)> = Vec::new();
    let n = ps.len();
    if n == 0 {
        proof {
            assert(ranges_view(out@) =~= merge_tokens(s, psv));
        }
        return out;
    }
    let mut cur: (usize, usize) = ps[0];
    let mut i: usize = 1;
    proof {
        assert(psv[0] == (cur.0 as int, cur.1 as int));
        assert(ranges_view(out@) + merge_scan(s, psv, 1, (cur.0 as int, cur.1 as int)) =~= (
        merge_scan(s, psv, 1, (cur.0 as int, cur.1 as int))));
    }
    while i < n
        invariant
            chars@ == s,
            psv == ranges_view(ps@),
            n == ps@.len() == psv.len(),
            1 <= i <= n,
            ranges_wf(psv, 0, s.len() as int),
            cur.0 < cur.1 <= s.len(),
            i < n ==> cur.1 <= psv[i as int].0,
            merge_tokens(s, psv) == ranges_view(out@) + merge_scan(
                s,
                psv,
                i as int,
                (cur.0 as int, cur.1 as int),
            ),
        decreases n - i,
    {
        let nxt = ps[i];
        proof {
            assert(psv[i as int] == (nxt.0 as int, nxt.1 as int));
        }
        let bridged = cur.1 < nxt.0 && all_apos(chars, cur.1, nxt.0);
        if bridged {
            cur = (cur.0, nxt.1);
        } else {
            let ghost pre = out@;
            let ghost curv = (cur.0 as int, cur.1 as int);
            out.push(cur);
            proof {
                assert(ranges_view(out@) =~= ranges_view(pre) + seq![curv]);
                assert(merge_scan(s, psv, i as int, curv) == seq![curv] + merge_scan(
                    s,
                    psv,
                    i + 1,
                    psv[i as int],
                ));
                assert(ranges_view(pre) + (seq![curv] + merge_scan(s, psv, i + 1, psv[i as int]))
                    =~= (ranges_view(pre) + seq![curv]) + merge_scan(s, psv, i + 1, psv[i as int]));
            }
            cur = nxt;
        }
        i += 1;
    }
    let ghost pre = out@;
    let ghost curv = (cur.0 as int, cur.1 as int);
    out.push(cur);
    proof {
        assert(merge_scan(s, psv, n as int, curv) == seq![curv]);
        assert(ranges_view(out@) =~= ranges_view(pre) + seq![curv]);
    }
    out
}

} // verus!
