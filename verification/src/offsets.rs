//! Byte offsets of character positions.
//!
//! Token spans are byte offsets into the original UTF-8 text, while the
//! tokenizer's logic walks the text character by character. This module ties
//! the two together: [`byte_index`] gives the byte offset of a character
//! position, and [`byte_offsets`] computes all of them for a text at once.

use vstd::prelude::*;
use vstd::string::StrSliceExecFns;
use vstd::utf8::char_is_scalar;
use vstd::utf8::encode_scalar;
use vstd::utf8::encode_utf8;

verus! {

broadcast use vstd::slice::group_slice_axioms;

/// The byte offset at which the character `s[i]` starts in the UTF-8
/// encoding of `s`; for `i == s.len()`, the total byte length of `s`.
pub open spec fn byte_index(s: Seq<char>, i: int) -> nat {
    encode_utf8(s.take(i)).len()
}

/// A character's UTF-8 encoding takes between one and four bytes.
pub proof fn lemma_encode_scalar_len(c: char)
    ensures
        1 <= encode_scalar(c as u32).len() <= 4,
{
    char_is_scalar(c);
}

/// UTF-8 encoding distributes over concatenation of character sequences.
pub proof fn lemma_encode_utf8_add(a: Seq<char>, b: Seq<char>)
    ensures
        encode_utf8(a + b) == encode_utf8(a) + encode_utf8(b),
    decreases a.len(),
{
    if a.len() == 0 {
        assert(a + b =~= b);
        assert(encode_utf8(a) + encode_utf8(b) =~= encode_utf8(b));
    } else {
        assert((a + b).drop_first() =~= a.drop_first() + b);
        assert((a + b)[0] == a[0]);
        lemma_encode_utf8_add(a.drop_first(), b);
        assert(encode_utf8(a + b) =~= encode_utf8(a) + encode_utf8(b));
    }
}

/// Stepping one character forward advances the byte offset by that
/// character's encoded length.
pub proof fn lemma_byte_index_step(s: Seq<char>, i: int)
    requires
        0 <= i < s.len(),
    ensures
        byte_index(s, i + 1) == byte_index(s, i) + encode_scalar(s[i] as u32).len(),
{
    let single = seq![s[i]];
    assert(s.take(i + 1) =~= s.take(i) + single);
    lemma_encode_utf8_add(s.take(i), single);
    assert(single[0] == s[i]);
    assert(single.drop_first() =~= Seq::<char>::empty());
    assert(encode_utf8(single) == encode_scalar(single[0] as u32) + encode_utf8(
        single.drop_first(),
    ));
    assert(encode_utf8(Seq::<char>::empty()).len() == 0);
    assert(encode_utf8(single) =~= encode_scalar(s[i] as u32));
}

/// Byte offsets are strictly increasing in the character position.
pub proof fn lemma_byte_index_lt(s: Seq<char>, i: int, j: int)
    requires
        0 <= i < j <= s.len(),
    ensures
        byte_index(s, i) < byte_index(s, j),
    decreases j - i,
{
    lemma_byte_index_step(s, i);
    lemma_encode_scalar_len(s[i]);
    if i + 1 < j {
        lemma_byte_index_lt(s, i + 1, j);
    }
}

/// Byte offsets are monotone in the character position.
pub proof fn lemma_byte_index_le(s: Seq<char>, i: int, j: int)
    requires
        0 <= i <= j <= s.len(),
    ensures
        byte_index(s, i) <= byte_index(s, j),
{
    if i < j {
        lemma_byte_index_lt(s, i, j);
    }
}

/// The bytes spanned between two character positions are the encoding of the
/// characters between them.
pub proof fn lemma_byte_index_subrange(s: Seq<char>, i: int, j: int)
    requires
        0 <= i <= j <= s.len(),
    ensures
        byte_index(s, j) == byte_index(s, i) + encode_utf8(s.subrange(i, j)).len(),
{
    assert(s.take(j) =~= s.take(i) + s.subrange(i, j));
    lemma_encode_utf8_add(s.take(i), s.subrange(i, j));
}

/// The number of bytes the UTF-8 encoding of this character takes.
pub(crate) fn char_utf8_len(c: char) -> (n: usize)
    ensures
        n == encode_scalar(c as u32).len(),
{
    proof {
        char_is_scalar(c);
    }
    let u = c as u32;
    if u < 0x80 {
        1
    } else if u < 0x800 {
        2
    } else if u < 0x10000 {
        3
    } else {
        4
    }
}

/// The characters of a text, in order, as a vector.
pub(crate) fn text_chars(text: &str) -> (chars: Vec<char>)
    ensures
        chars@ == text@,
{
    let n = text.unicode_len();
    let mut chars: Vec<char> = Vec::new();
    let mut i: usize = 0;
    while i < n
        invariant
            n == text@.len(),
            i <= n,
            chars@ == text@.take(i as int),
        decreases n - i,
    {
        chars.push(text.get_char(i));
        proof {
            assert(text@.take(i + 1 as int) =~= text@.take(i as int).push(text@[i as int]));
        }
        i += 1;
    }
    proof {
        assert(text@.take(n as int) =~= text@);
    }
    chars
}

/// The byte offset of every character position of `text`, ending with the
/// total byte length, as a vector indexed by character position.
pub(crate) fn byte_offsets(text: &str, chars: &Vec<char>) -> (offs: Vec<usize>)
    requires
        chars@ == text@,
    ensures
        offs@.len() == chars@.len() + 1,
        forall|i: int| 0 <= i <= chars@.len() ==> #[trigger] offs@[i] == byte_index(text@, i),
{
    let ghost s = text@;
    let bytes: &[u8] = text.as_bytes();
    let total: usize = bytes.len();
    proof {
        assert(bytes@ == encode_utf8(s));
        assert(s.take(s.len() as int) =~= s);
        assert(total == byte_index(s, s.len() as int));
    }
    let mut offs: Vec<usize> = Vec::new();
    offs.push(0);
    proof {
        assert(s.take(0) =~= Seq::<char>::empty());
    }
    let n = chars.len();
    let mut i: usize = 0;
    while i < n
        invariant
            n == s.len(),
            chars@ == s,
            i <= n,
            offs@.len() == i + 1,
            forall|j: int| 0 <= j <= i ==> #[trigger] offs@[j] == byte_index(s, j),
            total == byte_index(s, s.len() as int),
        decreases n - i,
    {
        let c = chars[i];
        let l = char_utf8_len(c);
        let prev = offs[i];
        proof {
            lemma_byte_index_step(s, i as int);
            lemma_byte_index_le(s, i + 1 as int, s.len() as int);
        }
        offs.push(prev + l);
        i += 1;
    }
    offs
}

/// Finds the character position whose byte offset is `target`, scanning
/// forward from `lo`; the ghost argument names the position known to match.
pub(crate) fn find_boundary(offs: &Vec<usize>, lo: usize, target: usize, ans: Ghost<int>) -> (j:
    usize)
    requires
        lo <= ans@ < offs@.len(),
        offs@[ans@] == target,
        forall|m: int| lo <= m < ans@ ==> #[trigger] offs@[m] < target,
    ensures
        j == ans@,
{
    let n = offs.len();
    let mut j = lo;
    while offs[j] != target
        invariant
            n == offs@.len(),
            lo <= j <= ans@ < n,
            offs@[ans@] == target,
        decreases ans@ - j,
    {
        proof {
            assert(j < ans@);
        }
        j += 1;
    }
    j
}

} // verus!
