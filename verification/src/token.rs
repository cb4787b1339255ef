//! Tokens and their finalization.
//!
//! A finalized token carries its normalized text, the half-open byte-offset
//! span it claims in the original input, and its position in the emission
//! order. Internally a token is a character range of the text until
//! finalization; its text is the word-forming characters of that range, so
//! elided apostrophes and bridging punctuation never reach the output text
//! while the span still closes over their bytes.

use crate::classes::is_word_char;
use crate::classes::word_char;
use crate::expand::ranges_valid;
use crate::offsets::byte_index;
use crate::segment::ranges_view;
use vstd::prelude::*;
use vstd::string::StrSliceExecFns;
use vstd::string::StringExecFns;

verus! {

/// One emitted token. `offset_from` and `offset_to` delimit the half-open
/// byte range of the original input the token spans; `offset_to` can exceed
/// `offset_from` plus the text's byte length once characters were elided.
/// `position` counts emissions from zero. Tokens are plain values; a stream
/// hands them over once and never changes them afterwards.
#[derive(Debug, Clone)]
pub struct Token {
    pub text: String,
    pub offset_from: usize,
    pub offset_to: usize,
    pub position: usize,
}

/// The mathematical view of a [`Token`]: its text as a character sequence
/// and its offsets and position as unbounded integers.
pub struct TokenView {
    pub text: Seq<char>,
    pub offset_from: nat,
    pub offset_to: nat,
    pub position: nat,
}

impl View for Token {
    type V = TokenView;

    open spec fn view(&self) -> TokenView {
        TokenView {
            text: self.text@,
            offset_from: self.offset_from as nat,
            offset_to: self.offset_to as nat,
            position: self.position as nat,
        }
    }
}

/// The views of a sequence of tokens.
pub open spec fn views_of(ts: Seq<Token>) -> Seq<TokenView> {
    ts.map_values(|t: Token| t@)
}

/// The word-forming characters of `q`, in order: what a span contributes to
/// a token's text.
pub open spec fn keep_word_chars(q: Seq<char>) -> Seq<char>
    decreases q.len(),
{
    if q.len() == 0 {
        Seq::empty()
    } else {
        let rest = keep_word_chars(q.drop_last());
        if word_char(q.last()) {
            rest.push(q.last())
        } else {
            rest
        }
    }
}

/// Extending a span by one character appends it to the kept text exactly
/// when it is word-forming.
pub proof fn lemma_keep_word_chars_push(q: Seq<char>, x: char)
    ensures
        keep_word_chars(q.push(x)) == if word_char(x) {
            keep_word_chars(q).push(x)
        } else {
            keep_word_chars(q)
        },
{
    assert(q.push(x).drop_last() =~= q);
    assert(q.push(x).last() == x);
}

/// Kept text distributes over concatenation of spans.
proof fn lemma_keep_word_chars_add(x: Seq<char>, y: Seq<char>)
    ensures
        keep_word_chars(x + y) == keep_word_chars(x) + keep_word_chars(y),
    decreases y.len(),
{
    if y.len() == 0 {
        assert(x + y =~= x);
        assert(keep_word_chars(x) + keep_word_chars(y) =~= keep_word_chars(x));
    } else {
        assert((x + y).drop_last() =~= x + y.drop_last());
        assert((x + y).last() == y.last());
        lemma_keep_word_chars_add(x, y.drop_last());
        if word_char(y.last()) {
            assert((keep_word_chars(x) + keep_word_chars(y.drop_last())).push(y.last()) =~= (
            keep_word_chars(x) + keep_word_chars(y.drop_last()).push(y.last())));
        }
    }
}

/// A span without word-forming characters contributes no text.
proof fn lemma_keep_word_chars_none(x: Seq<char>)
    requires
        forall|j: int| 0 <= j < x.len() ==> !word_char(#[trigger] x[j]),
    ensures
        keep_word_chars(x) == Seq::<char>::empty(),
    decreases x.len(),
{
    if x.len() > 0 {
        lemma_keep_word_chars_none(x.drop_last());
    }
}

/// The text of the token claiming the character range `r` of `s`.
pub open spec fn span_text(s: Seq<char>, r: (int, int)) -> Seq<char> {
    keep_word_chars(s.subrange(r.0, r.1))
}

/// A token spanning two ranges across a bridge of characters that are not
/// word-forming has as text exactly the concatenation of the two ranges'
/// texts: the bridge — an elided apostrophe run, a dash run, punctuation —
/// never surfaces in the text, while the span still closes over its bytes.
pub proof fn lemma_span_text_across_bridge(s: Seq<char>, a: int, b: int, c: int, d: int)
    requires
        0 <= a <= b <= c <= d <= s.len(),
        forall|j: int| b <= j < c ==> !word_char(#[trigger] s[j]),
    ensures
        span_text(s, (a, d)) == span_text(s, (a, b)) + span_text(s, (c, d)),
{
    assert(s.subrange(a, d) =~= (s.subrange(a, b) + s.subrange(b, c)) + s.subrange(c, d));
    lemma_keep_word_chars_add(s.subrange(a, b) + s.subrange(b, c), s.subrange(c, d));
    lemma_keep_word_chars_add(s.subrange(a, b), s.subrange(b, c));
    lemma_keep_word_chars_none(s.subrange(b, c));
    assert(keep_word_chars(s.subrange(a, b)) + Seq::<char>::empty() =~= keep_word_chars(
        s.subrange(a, b),
    ));
}

/// The token claiming the character range `r` of `s`, at position `pos`.
pub open spec fn token_at(s: Seq<char>, r: (int, int), pos: int) -> TokenView {
    TokenView {
        text: span_text(s, r),
        offset_from: byte_index(s, r.0),
        offset_to: byte_index(s, r.1),
        position: pos as nat,
    }
}

/// The tokens claiming the ranges `rs` of `s`, positioned in order.
pub open spec fn tokens_from_ranges(s: Seq<char>, rs: Seq<(int, int)>) -> Seq<TokenView> {
    Seq::new(rs.len(), |i: int| token_at(s, rs[i], i))
}

/// Collects the word-forming characters of `text[from..to)` (character
/// indices) into a fresh string.
pub(crate) fn collect_span_text(text: &str, from: usize, to: usize) -> (r: String)
    requires
        from <= to <= text@.len(),
    ensures
        r@ == span_text(text@, (from as int, to as int)),
{
    let ghost s = text@;
    let mut acc = String::new();
    let mut i = from;
    proof {
        assert(s.subrange(from as int, from as int) =~= Seq::<char>::empty());
    }
    while i < to
        invariant
            from <= i <= to <= s.len(),
            s == text@,
            acc@ == keep_word_chars(s.subrange(from as int, i as int)),
        decreases to - i,
    {
        let c = text.get_char(i);
        proof {
            assert(s.subrange(from as int, i + 1 as int) =~= s.subrange(
                from as int,
                i as int,
            ).push(s[i as int]));
            lemma_keep_word_chars_push(s.subrange(from as int, i as int), s[i as int]);
        }
        if is_word_char(c) {
            let piece = text.substring_char(i, i + 1);
            proof {
                assert(piece@ =~= seq![s[i as int]]);
                assert(acc@.push(s[i as int]) =~= acc@ + piece@);
            }
            acc.append(piece);
        }
        i += 1;
    }
    acc
}

/// Finalizes the ranges into tokens: text, byte-offset span, and position.
pub(crate) fn build_tokens(text: &str, offs: &Vec<usize>, items: &Vec<(usize, usize)>) -> (out:
    Vec<Token>)
    requires
        offs@.len() == text@.len() + 1,
        forall|i: int| 0 <= i <= text@.len() ==> #[trigger] offs@[i] == byte_index(text@, i),
        ranges_valid(ranges_view(items@), text@.len() as int),
    ensures
        views_of(out@) == tokens_from_ranges(text@, ranges_view(items@)),
{
    let ghost s = text@;
    let ghost rv = ranges_view(items@);
    let mut out: Vec<Token> = Vec::new();
    let n = items.len();
    let mut k: usize = 0;
    while k < n
        invariant
            s == text@,
            n == items@.len() == rv.len(),
            rv == ranges_view(items@),
            offs@.len() == s.len() + 1,
            forall|i: int| 0 <= i <= s.len() ==> #[trigger] offs@[i] == byte_index(s, i),
            ranges_valid(rv, s.len() as int),
            k <= n,
            out@.len() == k,
            forall|m: int| 0 <= m < k ==> #[trigger] out@[m]@ == token_at(s, rv[m], m),
        decreases n - k,
    {
        proof {
            assert(rv[k as int] == (items@[k as int].0 as int, items@[k as int].1 as int));
        }
        let a = items[k].0;
        let b = items[k].1;
        let txt = collect_span_text(text, a, b);
        let tok = Token { text: txt, offset_from: offs[a], offset_to: offs[b], position: k };
        out.push(tok);
        k += 1;
    }
    proof {
        assert(views_of(out@) =~= tokens_from_ranges(s, rv));
    }
    out
}

} // verus!
