//! The tokenizer and its pull-based token stream.
//!
//! [`tokenize`] runs the four stages over one text and returns the finished
//! token list; [`UnicodeTokenizer::token_stream`] wraps that list behind a
//! single-pass cursor. Each stream is built for one text and is independent
//! of every other; positions count from zero at the stream's first token.

use crate::expand::expand_all;
use crate::expand::expand_tokens;
use crate::expand::lemma_expand_tokens_valid;
use crate::expand::ranges_valid;
use crate::merge::lemma_merge_tokens_wf;
use crate::merge::merge_all;
use crate::merge::merge_tokens;
use crate::offsets::byte_index;
use crate::offsets::byte_offsets;
use crate::offsets::lemma_byte_index_le;
use crate::offsets::text_chars;
use crate::segment::ranges_view;
use crate::segment::seg_ranges_valid;
use crate::segment::seg_words;
use crate::segment::segment_words;
use crate::segment::to_char_ranges;
use crate::segment::word_range_at;
use crate::segment::word_ranges;
use crate::split::lemma_split_words_wf;
use crate::split::ranges_wf;
use crate::split::split_all;
use crate::split::split_words;
use crate::token::build_tokens;
use crate::token::token_at;
use crate::token::tokens_from_ranges;
use crate::token::views_of;
use crate::token::Token;
use crate::token::TokenView;
use vstd::prelude::*;

verus! {

/// The character ranges of the final tokens of `s`: segmented words, split
/// within words, merged across apostrophe runs, and expanded with one
/// compound per maximal dash-bridged run.
pub open spec fn final_ranges(s: Seq<char>) -> Seq<(int, int)> {
    expand_tokens(s, merge_tokens(s, split_words(s, word_ranges(s))))
}

/// The tokens of `s`, in emission order: one per final range, its text the
/// word-forming characters of the range, its span the range's byte offsets,
/// its position its index.
pub open spec fn tokens_of(s: Seq<char>) -> Seq<TokenView> {
    tokens_from_ranges(s, final_ranges(s))
}

/// In an ordered disjoint list, every earlier range ends before any later
/// range starts.
proof fn lemma_adjacent_chain(rs: Seq<(int, int)>, k: int, m: int)
    requires
        forall|j: int| 0 <= j < rs.len() ==> (#[trigger] rs[j]).0 < rs[j].1,
        forall|j: int| 0 <= j < rs.len() - 1 ==> (#[trigger] rs[j]).1 <= rs[j + 1].0,
        0 <= k < m < rs.len(),
    ensures
        rs[k].1 <= rs[m].0,
    decreases m - k,
{
    if k + 1 < m {
        lemma_adjacent_chain(rs, k + 1, m);
    }
}

/// The segmented word ranges are non-empty, ordered and disjoint.
proof fn lemma_word_ranges_wf(s: Seq<char>, rs: Seq<(int, int)>)
    requires
        seg_ranges_valid(s, seg_words(s), rs),
    ensures
        ranges_wf(rs, 0, s.len() as int),
{
    assert forall|k: int| 0 <= k < rs.len() implies 0 <= (#[trigger] rs[k]).0 < rs[k].1
        <= s.len() by {
        assert(word_range_at(s, seg_words(s)[k], rs[k]));
    }
    assert forall|k: int, m: int| 0 <= k < m < rs.len() implies (#[trigger] rs[k]).1 <= (
    #[trigger] rs[m]).0 by {
        lemma_adjacent_chain(rs, k, m);
    }
}

/// Tokenizes one text: the full token list, eagerly computed.
///
/// Every input yields the token sequence of [`tokens_of`]; positions rise
/// by exactly one from zero, and every span lies within the text's bytes.
pub fn tokenize(text: &str) -> (tokens: Vec<Token>)
    ensures
        views_of(tokens@) == tokens_of(text@),
        forall|i: int|
            0 <= i < tokens@.len() ==> (#[trigger] tokens@[i])@.position == i,
        forall|i: int|
            0 <= i < tokens@.len() ==> (#[trigger] tokens@[i])@.offset_from
                <= tokens@[i]@.offset_to <= byte_index(text@, text@.len() as int),
{
    let ghost s = text@;
    let chars = text_chars(text);
    let offs = byte_offsets(text, &chars);
    let words = segment_words(text);
    let wr = to_char_ranges(text, &chars, &offs, &words);
    let ghost wrv = ranges_view(wr@);
    proof {
        lemma_word_ranges_wf(s, wrv);
    }
    let ps = split_all(&chars, &wr);
    let ghost psv = ranges_view(ps@);
    proof {
        lemma_split_words_wf(s, wrv, 0);
    }
    let ms = merge_all(&chars, &ps);
    let ghost msv = ranges_view(ms@);
    proof {
        lemma_merge_tokens_wf(s, psv);
    }
    let fr = expand_all(&chars, &ms);
    let ghost frv = ranges_view(fr@);
    proof {
        lemma_expand_tokens_valid(s, msv);
        assert(frv == final_ranges(s));
    }
    let tokens = build_tokens(text, &offs, &fr);
    proof {
        assert(views_of(tokens@) == tokens_from_ranges(s, frv));
        assert(views_of(tokens@).len() == tokens@.len());
        assert(tokens@.len() == frv.len());
        assert(ranges_valid(frv, s.len() as int));
        assert forall|i: int| 0 <= i < tokens@.len() implies (#[trigger] tokens@[i])@.position == i
            && tokens@[i]@.offset_from <= tokens@[i]@.offset_to <= byte_index(
            s,
            s.len() as int,
        ) by {
            assert(views_of(tokens@)[i] == tokens@[i]@);
            assert(tokens_from_ranges(s, frv)[i] == token_at(s, frv[i], i));
            assert(0 <= frv[i].0 < frv[i].1 <= s.len());
            lemma_byte_index_le(s, frv[i].0, frv[i].1);
            lemma_byte_index_le(s, frv[i].1, s.len() as int);
        }
    }
    tokens
}

/// Tokenizing is deterministic: the tokens are a function of the text's
/// characters alone, so two runs over the same text agree exactly.
pub proof fn lemma_tokenize_deterministic(s: Seq<char>, t1: Seq<TokenView>, t2: Seq<TokenView>)
    requires
        t1 == tokens_of(s),
        t2 == tokens_of(s),
    ensures
        t1 == t2,
{
}

/// The Unicode word tokenizer. Carries no state of its own; construct one
/// and ask it for a stream per text. Registration with an analysis pipeline
/// is the host's concern.
#[derive(Clone, Copy)]
pub struct UnicodeTokenizer {}

/// A single-pass cursor over the tokens of one text. Built by
/// [`UnicodeTokenizer::token_stream`]; once exhausted it stays exhausted,
/// and a caller wanting the tokens again must tokenize again.
pub struct UnicodeTokenStream {
    rest: Vec<Token>,
    current: Token,
}

impl UnicodeTokenizer {
    /// A fresh tokenizer.
    pub fn new() -> (t: UnicodeTokenizer) {
        UnicodeTokenizer {  }
    }

    /// Tokenizes `text` and wraps the result in a pull-based stream.
    pub fn token_stream(&self, text: &str) -> (stream: UnicodeTokenStream)
        ensures
            stream.remaining() == tokens_of(text@),
            forall|i: int|
                0 <= i < stream.remaining().len() ==> (#[trigger] stream.remaining()[i]).position
                    == i,
            forall|i: int|
                0 <= i < stream.remaining().len() ==> (#[trigger] stream.remaining()[i]).offset_from
                    <= stream.remaining()[i].offset_to <= byte_index(text@, text@.len() as int),
    {
        let mut toks = tokenize(text);
        let ghost full = toks@;
        let mut rest: Vec<Token> = Vec::new();
        while toks.len() > 0
            invariant
                full == toks@ + rest@.reverse(),
            decreases toks@.len(),
        {
            let ghost pre_toks = toks@;
            let ghost pre_rest = rest@;
            let t = toks.pop().unwrap();
            rest.push(t);
            proof {
                assert(rest@.reverse() =~= seq![t] + pre_rest.reverse());
                assert(toks@ + rest@.reverse() =~= full);
            }
        }
        proof {
            assert(full =~= rest@.reverse());
        }
        let stream = UnicodeTokenStream {
            rest,
            current: Token { text: String::new(), offset_from: 0, offset_to: 0, position: 0 },
        };
        proof {
            assert(stream.remaining() =~= views_of(full));
            assert(views_of(full) =~= tokens_of(text@));
        }
        stream
    }
}

impl Default for UnicodeTokenizer {
    /// A fresh tokenizer, same as [`UnicodeTokenizer::new`].
    fn default() -> (t: Self)
        ensures
            t == (UnicodeTokenizer {  }),
    {
        UnicodeTokenizer {  }
    }
}

impl UnicodeTokenStream {
    /// The tokens not yet handed out, in emission order.
    pub closed spec fn remaining(&self) -> Seq<TokenView> {
        views_of(self.rest@).reverse()
    }

    /// The view of the token most recently advanced to.
    pub closed spec fn current_token(&self) -> TokenView {
        self.current@
    }

    /// Steps to the next token if one remains: the stream's current token
    /// becomes the head of the remaining sequence and `true` comes back.
    /// At exhaustion it returns `false` and changes nothing, now and on
    /// every later call.
    pub fn advance(&mut self) -> (more: bool)
        ensures
            more == (old(self).remaining().len() > 0),
            old(self).remaining().len() > 0 ==> final(self).remaining() == old(
                self,
            ).remaining().drop_first(),
            old(self).remaining().len() > 0 ==> final(self).current_token() == old(
                self,
            ).remaining()[0],
            old(self).remaining().len() == 0 ==> *final(self) == *old(self),
    {
        let ghost pre = self.rest@;
        proof {
            assert(old(self).remaining().len() == pre.len());
        }
        if self.rest.len() == 0 {
            return false;
        }
        let t = self.rest.pop().unwrap();
        self.current = t;
        proof {
            assert(self.rest@ == pre.subrange(0, pre.len() - 1));
            assert(self.remaining() =~= old(self).remaining().drop_first());
            assert(old(self).remaining()[0] == pre.last()@);
        }
        true
    }

    /// The most recently advanced-to token, without consuming it.
    pub fn token(&self) -> (t: &Token)
        ensures
            t@ == self.current_token(),
    {
        &self.current
    }

    /// Mutable access to the most recently advanced-to token, for callers
    /// that adjust a token in place before passing it on.
    pub fn token_mut(&mut self) -> (t: &mut Token)
        ensures
            t@ == old(self).current_token(),
            final(self).current_token() == (*final(t))@,
            final(self).remaining() == old(self).remaining(),
    {
        &mut self.current
    }
}

} // verus!
