//! Stage two: intra-word splitting.
//!
//! Each segmented word is scanned character by character. Word-forming
//! characters accumulate into a pending token; an apostrophe-like character
//! strictly between two word-forming characters is elided (skipped, while
//! the pending token's span still closes over its bytes); any other
//! character ends the pending token and starts a fresh one. A pending token
//! is kept as a character range of the text; its text is the word-forming
//! characters of that range, collected at finalization.

use crate::classes::apostrophe_like;
use crate::classes::is_apostrophe;
use crate::classes::is_word_char;
use crate::classes::word_char;
use crate::segment::covered;
use crate::segment::ranges_view;
use vstd::prelude::*;

verus! {

/// Well-formed range lists: each range is non-empty and lies within
/// `[lo, hi)`, and the ranges are pairwise disjoint and in order.
pub open spec fn ranges_wf(rs: Seq<(int, int)>, lo: int, hi: int) -> bool {
    &&& forall|k: int| 0 <= k < rs.len() ==> lo <= (#[trigger] rs[k]).0 < rs[k].1 <= hi
    &&& forall|k: int, m: int| 0 <= k < m < rs.len() ==> (#[trigger] rs[k]).1 <= (#[trigger] rs[m]).0
}

/// Position `i` of the word `s[a..b)` holds an elidable apostrophe: an
/// apostrophe-like character whose immediate neighbours within the word are
/// both word-forming.
pub open spec fn elidable(s: Seq<char>, a: int, b: int, i: int) -> bool {
    &&& apostrophe_like(s[i])
    &&& a < i
    &&& i + 1 < b
    &&& word_char(s[i - 1])
    &&& word_char(s[i + 1])
}

/// The left-to-right scan of the word `s[a..b)` from position `i`, with
/// `cur` the pending range accumulated so far: elidable apostrophes extend
/// the pending range without contributing text, word-forming characters
/// extend or open it, and every other character closes it.
pub open spec fn split_scan(s: Seq<char>, a: int, b: int, i: int, cur: Option<(int, int)>) -> Seq<
    (int, int),
>
    decreases b - i,
{
    if i >= b {
        match cur {
            Some(r) => seq![r],
            None => Seq::empty(),
        }
    } else if elidable(s, a, b, i) {
        match cur {
            Some(r) => split_scan(s, a, b, i + 1, Some((r.0, i + 1))),
            None => split_scan(s, a, b, i + 1, None),
        }
    } else if word_char(s[i]) {
        match cur {
            Some(r) => split_scan(s, a, b, i + 1, Some((r.0, i + 1))),
            None => split_scan(s, a, b, i + 1, Some((i, i + 1))),
        }
    } else {
        match cur {
            Some(r) => seq![r] + split_scan(s, a, b, i + 1, None),
            None => split_scan(s, a, b, i + 1, None),
        }
    }
}

/// The pending-token ranges of the word occupying `s[a..b)`.
pub open spec fn split_word(s: Seq<char>, a: int, b: int) -> Seq<(int, int)> {
    split_scan(s, a, b, a, None)
}

/// The pending-token ranges of all words, concatenated in text order.
pub open spec fn split_words(s: Seq<char>, ws: Seq<(int, int)>) -> Seq<(int, int)>
    decreases ws.len(),
{
    if ws.len() == 0 {
        Seq::empty()
    } else {
        split_word(s, ws[0].0, ws[0].1) + split_words(s, ws.drop_first())
    }
}

/// The scan yields non-empty, ordered, disjoint ranges of the word, all
/// starting no earlier than the pending range (or the scan position).
pub proof fn lemma_split_scan_wf(s: Seq<char>, a: int, b: int, i: int, cur: Option<(int, int)>)
    requires
        a <= i <= b,
        match cur {
            Some(r) => a <= r.0 < r.1 <= i,
            None => true,
        },
    ensures
        ranges_wf(
            split_scan(s, a, b, i, cur),
            match cur {
                Some(r) => r.0,
                None => i,
            },
            b,
        ),
    decreases b - i,
{
    let lo = match cur {
        Some(r) => r.0,
        None => i,
    };
    if i >= b {
    } else if elidable(s, a, b, i) {
        match cur {
            Some(r) => lemma_split_scan_wf(s, a, b, i + 1, Some((r.0, i + 1))),
            None => lemma_split_scan_wf(s, a, b, i + 1, None),
        }
    } else if word_char(s[i]) {
        match cur {
            Some(r) => lemma_split_scan_wf(s, a, b, i + 1, Some((r.0, i + 1))),
            None => lemma_split_scan_wf(s, a, b, i + 1, Some((i, i + 1))),
        }
    } else {
        match cur {
            Some(r) => {
                lemma_split_scan_wf(s, a, b, i + 1, None);
                let rest = split_scan(s, a, b, i + 1, None);
                assert(ranges_wf(rest, i + 1, b));
                let whole = seq![r] + rest;
                assert forall|k: int, m: int| 0 <= k < m < whole.len() implies (
                #[trigger] whole[k]).1 <= (#[trigger] whole[m]).0 by {
                    if k == 0 {
                        assert(whole[m] == rest[m - 1]);
                        assert(i + 1 <= rest[m - 1].0);
                    } else {
                        assert(whole[k] == rest[k - 1]);
                        assert(whole[m] == rest[m - 1]);
                    }
                }
            },
            None => lemma_split_scan_wf(s, a, b, i + 1, None),
        }
    }
}

/// Splitting all words yields non-empty, ordered, disjoint ranges.
pub proof fn lemma_split_words_wf(s: Seq<char>, ws: Seq<(int, int)>, lo: int)
    requires
        ranges_wf(ws, lo, s.len() as int),
    ensures
        ranges_wf(split_words(s, ws), lo, s.len() as int),
    decreases ws.len(),
{
    if ws.len() == 0 {
    } else {
        let a = ws[0].0;
        let b = ws[0].1;
        lemma_split_scan_wf(s, a, b, a, None);
        let head = split_word(s, a, b);
        assert(ranges_wf(head, a, b));
        let rest_ws = ws.drop_first();
        assert(ranges_wf(rest_ws, b, s.len() as int)) by {
            assert forall|k: int| 0 <= k < rest_ws.len() implies b <= (#[trigger] rest_ws[k]).0
                < rest_ws[k].1 <= s.len() by {
                assert(rest_ws[k] == ws[k + 1]);
                assert(ws[0].1 <= ws[k + 1].0);
            }
            assert forall|k: int, m: int| 0 <= k < m < rest_ws.len() implies (
            #[trigger] rest_ws[k]).1 <= (#[trigger] rest_ws[m]).0 by {
                assert(rest_ws[k] == ws[k + 1]);
                assert(rest_ws[m] == ws[m + 1]);
            }
        }
        lemma_split_words_wf(s, rest_ws, b);
        let rest = split_words(s, rest_ws);
        let whole = head + rest;
        assert forall|k: int, m: int| 0 <= k < m < whole.len() implies (#[trigger] whole[k]).1 <= (
        #[trigger] whole[m]).0 by {
            if m < head.len() {
            } else if k < head.len() {
                assert(whole[k] == head[k]);
                assert(whole[m] == rest[m - head.len()]);
                assert(head[k].1 <= b <= rest[m - head.len()].0);
            } else {
                assert(whole[k] == rest[k - head.len()]);
                assert(whole[m] == rest[m - head.len()]);
            }
        }
    }
}

/// The scan leaves no word-forming character behind: every one from the
/// scan position on ends up inside some emitted range, and a pending range
/// survives into the first emitted range.
proof fn lemma_split_scan_covers(s: Seq<char>, a: int, b: int, i: int, cur: Option<(int, int)>)
    requires
        a <= i <= b <= s.len(),
        match cur {
            Some(r) => a <= r.0 < r.1 <= i,
            None => true,
        },
    ensures
        match cur {
            Some(r) => {
                let res = split_scan(s, a, b, i, cur);
                res.len() >= 1 && res[0].0 == r.0 && res[0].1 >= r.1
            },
            None => true,
        },
        forall|j: int|
            i <= j < b && word_char(s[j]) ==> covered(split_scan(s, a, b, i, cur), j),
    decreases b - i,
{
    let res = split_scan(s, a, b, i, cur);
    if i >= b {
    } else if elidable(s, a, b, i) {
        let cur2 = match cur {
            Some(r) => Some((r.0, i + 1)),
            None => None,
        };
        lemma_split_scan_covers(s, a, b, i + 1, cur2);
        let rest = split_scan(s, a, b, i + 1, cur2);
        assert(res == rest);
        assert forall|j: int| i <= j < b && word_char(s[j]) implies covered(res, j) by {
            assert(!word_char(s[i]));
            assert(covered(rest, j));
        }
    } else if word_char(s[i]) {
        let cur2 = match cur {
            Some(r) => Some((r.0, i + 1)),
            None => Some((i, i + 1)),
        };
        lemma_split_scan_covers(s, a, b, i + 1, cur2);
        let rest = split_scan(s, a, b, i + 1, cur2);
        assert(res == rest);
        assert forall|j: int| i <= j < b && word_char(s[j]) implies covered(res, j) by {
            if j == i {
                assert(rest[0].0 <= i < rest[0].1);
            } else {
                assert(covered(rest, j));
            }
        }
    } else {
        match cur {
            Some(r) => {
                lemma_split_scan_covers(s, a, b, i + 1, None);
                let rest = split_scan(s, a, b, i + 1, None);
                assert forall|j: int| i <= j < b && word_char(s[j]) implies covered(res, j) by {
                    assert(!word_char(s[i]));
                    assert(covered(rest, j));
                    let k = choose|k: int| 0 <= k < rest.len() && (#[trigger] rest[k]).0 <= j
                        < rest[k].1;
                    assert(res[k + 1] == rest[k]);
                    assert(covered(res, j));
                }
            },
            None => {
                lemma_split_scan_covers(s, a, b, i + 1, None);
                let rest = split_scan(s, a, b, i + 1, None);
                assert(res == rest);
                assert forall|j: int| i <= j < b && word_char(s[j]) implies covered(res, j) by {
                    assert(!word_char(s[i]));
                    assert(covered(rest, j));
                }
            },
        }
    }
}

/// Splitting the words leaves no word-forming character of any word behind.
proof fn lemma_split_words_covers(s: Seq<char>, ws: Seq<(int, int)>, j: int)
    requires
        ranges_wf(ws, 0, s.len() as int),
        covered(ws, j),
        word_char(s[j]),
    ensures
        covered(split_words(s, ws), j),
    decreases ws.len(),
{
    let res = split_words(s, ws);
    let head = split_word(s, ws[0].0, ws[0].1);
    let rest_ws = ws.drop_first();
    let rest = split_words(s, rest_ws);
    if ws[0].0 <= j < ws[0].1 {
        lemma_split_scan_covers(s, ws[0].0, ws[0].1, ws[0].0, None);
        assert(covered(head, j));
        let k = choose|k: int| 0 <= k < head.len() && (#[trigger] head[k]).0 <= j < head[k].1;
        assert(res[k] == head[k]);
        assert(covered(res, j));
    } else {
        let m = choose|m: int| 0 <= m < ws.len() && (#[trigger] ws[m]).0 <= j < ws[m].1;
        assert(m >= 1);
        assert(rest_ws[m - 1] == ws[m]);
        assert(covered(rest_ws, j));
        assert forall|k: int| 0 <= k < rest_ws.len() implies 0 <= (#[trigger] rest_ws[k]).0
            < rest_ws[k].1 <= s.len() by {
            assert(rest_ws[k] == ws[k + 1]);
        }
        assert forall|k: int, t: int| 0 <= k < t < rest_ws.len() implies (
        #[trigger] rest_ws[k]).1 <= (#[trigger] rest_ws[t]).0 by {
            assert(rest_ws[k] == ws[k + 1]);
            assert(rest_ws[t] == ws[t + 1]);
        }
        lemma_split_words_covers(s, rest_ws, j);
        let k = choose|k: int| 0 <= k < rest.len() && (#[trigger] rest[k]).0 <= j < rest[k].1;
        assert(res[head.len() + k] == rest[k]);
        assert(covered(res, j));
    }
}

/// No word-forming character stands between the start of the word list's
/// span and the end: every character of `[lo, hi)` outside the pending
/// ranges — between two of them, before the first, after the last — is not
/// word-forming, provided every character outside the words themselves is
/// not word-forming either.
pub proof fn lemma_split_words_leaves_no_word_char(
    s: Seq<char>,
    ws: Seq<(int, int)>,
    j: int,
)
    requires
        ranges_wf(ws, 0, s.len() as int),
        0 <= j < s.len(),
        !covered(ws, j) ==> !word_char(s[j]),
        !covered(split_words(s, ws), j),
    ensures
        !word_char(s[j]),
{
    if covered(ws, j) && word_char(s[j]) {
        lemma_split_words_covers(s, ws, j);
    }
}

/// No character of `s[lo..hi)` is word-forming.
pub open spec fn span_word_free(s: Seq<char>, lo: int, hi: int) -> bool {
    forall|j: int| lo <= j < hi ==> !word_char(#[trigger] s[j])
}

/// No word-forming character stands in any gap between two consecutive
/// ranges of the list.
pub open spec fn gaps_word_free(s: Seq<char>, rs: Seq<(int, int)>) -> bool {
    forall|k: int| 0 <= k < rs.len() - 1 ==> span_word_free(s, (#[trigger] rs[k]).1, rs[k + 1].0)
}

/// After splitting, the gaps between consecutive pending tokens hold no
/// word-forming character — they are the punctuation that split the words
/// and the runs the segmenter dropped between them.
pub proof fn lemma_split_words_gaps_word_free(s: Seq<char>, ws: Seq<(int, int)>)
    requires
        ranges_wf(ws, 0, s.len() as int),
        forall|j: int| 0 <= j < s.len() && !covered(ws, j) ==> !word_char(#[trigger] s[j]),
    ensures
        gaps_word_free(s, split_words(s, ws)),
{
    let ps = split_words(s, ws);
    lemma_split_words_wf(s, ws, 0);
    assert forall|k: int| 0 <= k < ps.len() - 1 implies span_word_free(
        s,
        (#[trigger] ps[k]).1,
        ps[k + 1].0,
    ) by {
        assert forall|j: int| ps[k].1 <= j < ps[k + 1].0 implies !word_char(#[trigger] s[j]) by {
            assert(0 <= ps[k].0 < ps[k].1 <= s.len());
            assert(0 <= ps[k + 1].0 < ps[k + 1].1 <= s.len());
            if covered(ps, j) {
                let t = choose|t: int|
                    0 <= t < ps.len() && (#[trigger] ps[t]).0 <= j < ps[t].1;
                if t < k {
                    assert(ps[t].1 <= ps[k].0);
                } else if t > k + 1 {
                    assert(ps[k + 1].1 <= ps[t].0);
                }
                assert(false);
            }
            lemma_split_words_leaves_no_word_char(s, ws, j);
        }
    }
}

/// Appending one more word appends that word's pending tokens.
pub proof fn lemma_split_words_push(s: Seq<char>, ws: Seq<(int, int)>, w: (int, int))
    ensures
        split_words(s, ws.push(w)) == split_words(s, ws) + split_word(s, w.0, w.1),
    decreases ws.len(),
{
    let pws = ws.push(w);
    if ws.len() == 0 {
        assert(pws[0] == w);
        assert(pws.drop_first() =~= Seq::<(int, int)>::empty());
        assert(split_words(s, pws) == split_word(s, pws[0].0, pws[0].1) + split_words(
            s,
            pws.drop_first(),
        ));
        assert(split_words(s, pws) =~= split_word(s, w.0, w.1));
        assert(split_words(s, ws) + split_word(s, w.0, w.1) =~= split_word(s, w.0, w.1));
    } else {
        assert(pws[0] == ws[0]);
        assert(pws.drop_first() =~= ws.drop_first().push(w));
        lemma_split_words_push(s, ws.drop_first(), w);
        assert(split_words(s, pws) == split_word(s, pws[0].0, pws[0].1) + split_words(
            s,
            pws.drop_first(),
        ));
        assert(split_words(s, ws) == split_word(s, ws[0].0, ws[0].1) + split_words(
            s,
            ws.drop_first(),
        ));
        assert(split_words(s, pws) =~= split_words(s, ws) + split_word(s, w.0, w.1));
    }
}

/// The view of the pending range held by the executable scan.
pub open spec fn cur_view(cur: Option<(usize, usize)>) -> Option<(int, int)> {
    match cur {
        Some(r) => Some((r.0 as int, r.1 as int)),
        None => None,
    }
}

/// Splits one word, appending its pending-token ranges to `out`.
pub(crate) fn split_word_exec(
    chars: &Vec<char>,
    a: usize,
    b: usize,
    out: &mut Vec<(usize, usize)>,
)
    requires
        a <= b <= chars@.len(),
    ensures
        ranges_view(final(out)@) == ranges_view(old(out)@) + split_word(chars@, a as int, b as int),
{
    let ghost s = chars@;
    let ghost base = old(out)@;
    let mut cur: Option<(usize, usize)> = None;
    let mut i: usize = a;
    while i < b
        invariant
            a <= i <= b <= s.len(),
            chars@ == s,
            out@.len() >= base.len(),
            out@.subrange(0, base.len() as int) == base,
            match cur {
                Some(r) => a <= r.0 < r.1 <= i,
                None => true,
            },
            split_word(s, a as int, b as int) == ranges_view(
                out@.subrange(base.len() as int, out@.len() as int),
            ) + split_scan(s, a as int, b as int, i as int, cur_view(cur)),
        decreases b - i,
    {
        let c = chars[i];
        let elide = is_apostrophe(c) && i > a && i + 1 < b && is_word_char(chars[i - 1])
            && is_word_char(chars[i + 1]);
        if elide {
            if let Some(r) = cur {
                cur = Some((r.0, i + 1));
            }
        } else if is_word_char(c) {
            match cur {
                Some(r) => {
                    cur = Some((r.0, i + 1));
                },
                None => {
                    cur = Some((i, i + 1));
                },
            }
        } else {
            if let Some(r) = cur {
                let ghost pre = out@;
                out.push(r);
                cur = None;
                proof {
                    assert(out@.subrange(0, base.len() as int) =~= base);
                    assert(out@.subrange(base.len() as int, out@.len() as int) =~= pre.subrange(
                        base.len() as int,
                        pre.len() as int,
                    ).push(r));
                    assert(ranges_view(out@.subrange(base.len() as int, out@.len() as int)) =~= (
                    ranges_view(pre.subrange(base.len() as int, pre.len() as int)) + seq![
                        (r.0 as int, r.1 as int),
                    ]));
                }
            }
        }
        i += 1;
    }
    if let Some(r) = cur {
        let ghost pre = out@;
        out.push(r);
        proof {
            assert(out@.subrange(0, base.len() as int) =~= base);
            assert(out@.subrange(base.len() as int, out@.len() as int) =~= pre.subrange(
                base.len() as int,
                pre.len() as int,
            ).push(r));
            assert(ranges_view(out@.subrange(base.len() as int, out@.len() as int)) =~= (
            ranges_view(pre.subrange(base.len() as int, pre.len() as int)) + seq![
                (r.0 as int, r.1 as int),
            ]));
        }
    }
    proof {
        assert(out@.subrange(0, base.len() as int) =~= base);
        assert(ranges_view(out@) =~= ranges_view(base) + ranges_view(
            out@.subrange(base.len() as int, out@.len() as int),
        ));
    }
}

/// Splits every word, returning all pending-token ranges in text order.
pub(crate) fn split_all(chars: &Vec<char>, wr: &Vec<(usize, usize)>) -> (out: Vec<(usize, usize)>)
    requires
        forall|k: int| 0 <= k < wr@.len() ==> (#[trigger] wr@[k]).0 <= wr@[k].1 <= chars@.len(),
    ensures
        ranges_view(out@) == split_words(chars@, ranges_view(wr@)),
{
    let ghost s = chars@;
    let ghost ws = ranges_view(wr@);
    let mut out: Vec<(usize, usize)> = Vec::new();
    let n = wr.len();
    let mut k: usize = 0;
    proof {
        assert(ws.subrange(0, 0) =~= Seq::<(int, int)>::empty());
    }
    while k < n
        invariant
            chars@ == s,
            n == wr@.len() == ws.len(),
            k <= n,
            ws == ranges_view(wr@),
            forall|m: int| 0 <= m < n ==> (#[trigger] wr@[m]).0 <= wr@[m].1 <= s.len(),
            ranges_view(out@) == split_words(s, ws.subrange(0, k as int)),
        decreases n - k,
    {
        let a = wr[k].0;
        let b = wr[k].1;
        proof {
            assert(ws[k as int] == (a as int, b as int));
            assert(ws.subrange(0, k + 1 as int) =~= ws.subrange(0, k as int).push(ws[k as int]));
            lemma_split_words_push(s, ws.subrange(0, k as int), ws[k as int]);
        }
        split_word_exec(chars, a, b, &mut out);
        k += 1;
    }
    proof {
        assert(ws.subrange(0, n as int) =~= ws);
    }
    out
}

} // verus!
