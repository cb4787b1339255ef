//! Stage one: word segmentation.
//!
//! The text is split into maximal word segments along standard Unicode word
//! boundaries; runs of whitespace and punctuation between them are dropped.
//! The segmenter itself is an outside library; everything after it works on
//! character ranges of the original text, which [`to_char_ranges`] recovers
//! from the byte offsets the segmenter reports.

use crate::classes::alnum;
use crate::offsets::byte_index;
use crate::offsets::find_boundary;
use crate::offsets::lemma_byte_index_le;
use crate::offsets::lemma_byte_index_lt;
use crate::offsets::lemma_byte_index_subrange;
use unicode_segmentation::UnicodeSegmentation;
use vstd::prelude::*;
use vstd::utf8::encode_utf8;

verus! {

/// The `(byte offset, word)` pairs that standard Unicode word segmentation
/// yields for a character sequence, in text order. The value is a function
/// of the characters alone; [`segment_words`] computes it.
pub uninterp spec fn seg_words(s: Seq<char>) -> Seq<(nat, Seq<char>)>;

/// The segmenter's output, viewed as byte offsets and character sequences.
pub open spec fn words_view(ws: Seq<(usize, String)>) -> Seq<(nat, Seq<char>)> {
    ws.map_values(|p: (usize, String)| (p.0 as nat, p.1@))
}

/// A vector of character ranges, viewed as pairs of mathematical integers.
pub open spec fn ranges_view(rs: Seq<(usize, usize)>) -> Seq<(int, int)> {
    rs.map_values(|r: (usize, usize)| (r.0 as int, r.1 as int))
}

/// The word `w` (a byte offset and its characters) occupies exactly the
/// character range `r` of `s`.
pub open spec fn word_range_at(s: Seq<char>, w: (nat, Seq<char>), r: (int, int)) -> bool {
    &&& 0 <= r.0 < r.1 <= s.len()
    &&& r.1 - r.0 == w.1.len()
    &&& s.subrange(r.0, r.1) == w.1
    &&& byte_index(s, r.0) == w.0
}

/// Some range of `rs` contains the position `j`.
pub open spec fn covered(rs: Seq<(int, int)>, j: int) -> bool {
    exists|k: int| 0 <= k < rs.len() && (#[trigger] rs[k]).0 <= j < rs[k].1
}

/// `rs` locates each segmented word of `ws` in `s`: range `k` holds word `k`
/// at its reported byte offset, the ranges are non-empty, in order and
/// disjoint, and every character outside all of them is non-alphanumeric
/// (it lies in a dropped whitespace or punctuation run).
pub open spec fn seg_ranges_valid(s: Seq<char>, ws: Seq<(nat, Seq<char>)>, rs: Seq<(int, int)>) -> bool {
    &&& rs.len() == ws.len()
    &&& forall|k: int| 0 <= k < rs.len() ==> word_range_at(s, ws[k], #[trigger] rs[k])
    &&& forall|k: int| 0 <= k < rs.len() - 1 ==> (#[trigger] rs[k]).1 <= rs[k + 1].0
    &&& forall|j: int| 0 <= j < s.len() && !covered(rs, j) ==> !alnum(#[trigger] s[j])
}

/// The character ranges of the segmented words of `s`, in text order.
pub open spec fn word_ranges(s: Seq<char>) -> Seq<(int, int)> {
    choose|rs: Seq<(int, int)>| seg_ranges_valid(s, seg_words(s), rs)
}

/// Relies on `unicode_segmentation::UnicodeSegmentation::unicode_word_indices`:
/// it yields `(byte offset, subslice)` pairs, in text order, for exactly those
/// word-boundary segments of the text that contain an alphanumeric character
/// (Unicode `Alphabetic` or `Number`, the property `char::is_alphanumeric`
/// tests); the segments tile the text, so the dropped ones hold only
/// non-alphanumeric characters. The result depends on the text alone.
#[verifier::external_body]
pub(crate) fn segment_words(text: &str) -> (words: Vec<(usize, String)>)
    ensures
        words_view(words@) == seg_words(text@),
        exists|rs: Seq<(int, int)>| seg_ranges_valid(text@, words_view(words@), rs),
{
    text.unicode_word_indices().map(|(off, w)| (off, w.to_string())).collect()
}

/// Recovers, for each segmented word, the character range it occupies in the
/// text, from the byte offset the segmenter reported for it.
#[verifier::rlimit(60)]
pub(crate) fn to_char_ranges(
    text: &str,
    chars: &Vec<char>,
    offs: &Vec<usize>,
    words: &Vec<(usize, String)>,
) -> (rs: Vec<(usize, usize)>)
    requires
        chars@ == text@,
        offs@.len() == chars@.len() + 1,
        forall|i: int| 0 <= i <= chars@.len() ==> #[trigger] offs@[i] == byte_index(text@, i),
        words_view(words@) == seg_words(text@),
        exists|rs0: Seq<(int, int)>| seg_ranges_valid(text@, words_view(words@), rs0),
    ensures
        ranges_view(rs@) == word_ranges(text@),
        seg_ranges_valid(text@, seg_words(text@), ranges_view(rs@)),
        forall|k: int| 0 <= k < rs@.len() ==> (#[trigger] rs@[k]).0 < rs@[k].1 <= chars@.len(),
        forall|k: int| 0 <= k < rs@.len() - 1 ==> (#[trigger] rs@[k]).1 <= rs@[k + 1].0,
{
    let ghost s = text@;
    let ghost ws = seg_words(text@);
    let ghost rs0 = word_ranges(text@);
    proof {
        assert(seg_ranges_valid(s, ws, rs0));
    }
    let n_words = words.len();
    let mut rs: Vec<(usize, usize)> = Vec::new();
    let mut lo: usize = 0;
    let mut k: usize = 0;
    while k < n_words
        invariant
            chars@ == s,
            n_words == words@.len() == ws.len() == rs0.len(),
            offs@.len() == s.len() + 1,
            forall|i: int| 0 <= i <= s.len() ==> #[trigger] offs@[i] == byte_index(s, i),
            words_view(words@) == ws,
            seg_ranges_valid(s, ws, rs0),
            k <= n_words,
            rs@.len() == k,
            forall|m: int|
                0 <= m < k ==> (#[trigger] rs@[m]).0 == rs0[m].0 && rs@[m].1 == rs0[m].1,
            if k == 0 {
                lo == 0
            } else {
                lo == rs0[k - 1].1
            },
        decreases n_words - k,
    {
        let pair: &(usize, String) = &words[k];
        let off: usize = pair.0;
        let wlen: usize = pair.1.as_str().len();
        let ghost a = rs0[k as int].0;
        let ghost b = rs0[k as int].1;
        proof {
            assert(ws[k as int] == (words@[k as int].0 as nat, words@[k as int].1@));
            assert(word_range_at(s, ws[k as int], rs0[k as int]));
            assert(byte_index(s, a) == off as nat);
            assert(lo <= a) by {
                if k > 0 {
                    assert(rs0[k - 1 as int].1 <= rs0[k as int].0);
                }
            }
            assert forall|m: int| lo <= m < a implies #[trigger] offs@[m] < off by {
                lemma_byte_index_lt(s, m, a);
            }
        }
        let start = find_boundary(offs, lo, off, Ghost(rs0[k as int].0));
        proof {
            lemma_byte_index_subrange(s, a, b);
            assert(s.subrange(a, b) == ws[k as int].1);
            assert(ws[k as int].1 == pair.1@);
            assert(byte_index(s, b) == off + encode_utf8(pair.1@).len());
            lemma_byte_index_le(s, b, s.len() as int);
            assert(byte_index(s, s.len() as int) == offs@[s.len() as int]);
            assert(off + encode_utf8(pair.1@).len() <= offs@[s.len() as int]);
            assert(wlen == encode_utf8(pair.1@).len());
            assert(offs@[b] == off + wlen);
            assert forall|m: int| start <= m < b implies #[trigger] offs@[m] < off + wlen by {
                lemma_byte_index_lt(s, m, b);
            }
        }
        let target_end = off + wlen;
        let end = find_boundary(offs, start, target_end, Ghost(rs0[k as int].1));
        rs.push((start, end));
        lo = end;
        k += 1;
    }
    proof {
        assert(ranges_view(rs@) =~= rs0);
    }
    rs
}

} // verus!
