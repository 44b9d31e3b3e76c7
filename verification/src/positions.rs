//! Byte offsets of character boundaries in UTF-8 text.
use vstd::prelude::*;
use vstd::string::*;
use vstd::utf8::*;

verus! {

/// The number of bytes of the UTF-8 encoding of `s`.
pub open spec fn utf8_len(s: Seq<char>) -> nat {
    encode_utf8(s).len()
}

/// Encoding a concatenation concatenates the encodings.
pub proof fn lemma_encode_concat(a: Seq<char>, b: Seq<char>)
    ensures
        encode_utf8(a + b) == encode_utf8(a) + encode_utf8(b),
    decreases a.len(),
{
    if a.len() == 0 {
        assert(a + b =~= b);
        assert(encode_utf8(a) =~= Seq::<u8>::empty());
        assert(encode_utf8(a) + encode_utf8(b) =~= encode_utf8(b));
    } else {
        assert((a + b).drop_first() =~= a.drop_first() + b);
        assert((a + b)[0] == a[0]);
        lemma_encode_concat(a.drop_first(), b);
        assert(encode_utf8(a + b) =~= encode_scalar(a[0] as u32) + (encode_utf8(a.drop_first()) + encode_utf8(b)));
    }
}

/// Every character takes between one and four bytes.
pub proof fn lemma_scalar_width(c: char)
    ensures
        1 <= encode_scalar(c as u32).len() <= 4,
{
    char_is_scalar(c);
}

/// Offsets of later boundaries are strictly greater.
pub proof fn lemma_utf8_len_grows(t: Seq<char>, i: int, j: int)
    requires
        0 <= i < j <= t.len(),
    ensures
        utf8_len(t.take(i)) < utf8_len(t.take(j)),
{
    let mid = t.subrange(i, j);
    assert(t.take(j) =~= t.take(i) + mid);
    lemma_encode_concat(t.take(i), mid);
    lemma_scalar_width(mid[0]);
}

/// An offset into the text never exceeds the length of its encoding.
pub proof fn lemma_utf8_len_prefix(t: Seq<char>, i: int)
    requires
        0 <= i <= t.len(),
    ensures
        utf8_len(t.take(i)) <= utf8_len(t),
{
    assert(t =~= t.take(i) + t.skip(i));
    lemma_encode_concat(t.take(i), t.skip(i));
}

/// The number of bytes in the UTF-8 encoding of `c`.
pub fn utf8_width(c: char) -> (width: usize)
    ensures
        width == encode_scalar(c as u32).len(),
        1 <= width <= 4,
{
    proof {
        char_is_scalar(c);
    }
    let value = c as u32;
    if value < 0x80 {
        1
    } else if value < 0x800 {
        2
    } else if value < 0x10000 {
        3
    } else {
        4
    }
}

/// The byte offset of every character of `text`, followed by the length of `text` in bytes.
pub fn boundaries(text: &str) -> (positions: Vec<usize>)
    ensures
        positions@.len() == text@.len() + 1,
        forall|i: int| 0 <= i <= text@.len() ==> #[trigger] positions@[i] == utf8_len(text@.take(i)),
        forall|i: int, j: int| 0 <= i < j <= text@.len() ==> #[trigger] positions@[i] < #[trigger] positions@[j],
        positions@[text@.len() as int] == text.spec_bytes().len(),
{
    let byte_len = text.as_bytes().len();
    assert(byte_len == text.spec_bytes().len());
    let n = text.unicode_len();
    let mut positions: Vec<usize> = Vec::new();
    let mut offset: usize = 0;
    let mut i: usize = 0;
    assert(text@.take(0) =~= Seq::<char>::empty());
    while i < n
        invariant
            n == text@.len(),
            i <= n,
            positions@.len() == i,
            offset == utf8_len(text@.take(i as int)),
            forall|j: int| 0 <= j < i ==> #[trigger] positions@[j] == utf8_len(text@.take(j)),
            text.spec_bytes().len() <= usize::MAX,
        decreases n - i,
    {
        positions.push(offset);
        let c = text.get_char(i);
        proof {
            assert(text@.take(i + 1) =~= text@.take(i as int) + seq![c]);
            lemma_encode_concat(text@.take(i as int), seq![c]);
            let single = seq![c];
            assert(single.drop_first() =~= Seq::<char>::empty());
            assert(encode_utf8(single.drop_first()) =~= Seq::<u8>::empty());
            assert(encode_utf8(single) == encode_scalar(single[0] as u32) + encode_utf8(single.drop_first()));
            assert(encode_utf8(single) =~= encode_scalar(c as u32));
            lemma_utf8_len_prefix(text@, i + 1);
        }
        offset = offset + utf8_width(c);
        i = i + 1;
    }
    positions.push(offset);
    proof {
        assert forall|i: int, j: int| 0 <= i < j <= text@.len() implies #[trigger] positions@[i] < #[trigger] positions@[j] by {
            lemma_utf8_len_grows(text@, i, j);
        }
        assert(text@.take(text@.len() as int) =~= text@);
    }
    positions
}

} // verus!
