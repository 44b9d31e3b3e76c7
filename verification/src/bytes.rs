//! A cursor over fuzzer input that reads past the end as zeros.
use vstd::prelude::*;
use vstd::string::*;

use crate::strings::push_char;

verus! {

/// The byte at index `i` of the input, or 0 past its end.
pub open spec fn byte_at(data: Seq<u8>, i: int) -> u8 {
    if 0 <= i < data.len() {
        data[i]
    } else {
        0
    }
}

/// Whether reading from cursor `c1` of `d1` meets the same bytes as reading from cursor `c2`
/// of `d2`, now and at every later position.
pub open spec fn same_from(d1: Seq<u8>, c1: int, d2: Seq<u8>, c2: int) -> bool {
    forall|i: int| i >= 0 ==> #[trigger] byte_at(d1, c1 + i) == byte_at(d2, c2 + i)
}

/// Agreement from two cursors carries over to the cursors moved on by the same amount.
pub proof fn lemma_same_from_shift(d1: Seq<u8>, c1: int, d2: Seq<u8>, c2: int, k: int)
    requires
        same_from(d1, c1, d2, c2),
        k >= 0,
    ensures
        same_from(d1, c1 + k, d2, c2 + k),
        byte_at(d1, c1 + k) == byte_at(d2, c2 + k),
{
    assert forall|i: int| i >= 0 implies #[trigger] byte_at(d1, c1 + k + i) == byte_at(d2, c2 + k + i) by {
        assert(byte_at(d1, c1 + (k + i)) == byte_at(d2, c2 + (k + i)));
        assert(c1 + k + i == c1 + (k + i));
        assert(c2 + k + i == c2 + (k + i));
    }
    assert(byte_at(d1, c1 + k + 0) == byte_at(d2, c2 + k + 0));
}

/// The characters that generated texts are made of.
pub open spec fn text_alphabet() -> Seq<char> {
    seq!['a', 'b', 'c', '0', '1', '2', '\u{e9}', '\u{1f495}', '[', '.', '\\', ' ', '\n', 'x']
}

/// The text that [`Bytes::text`] reads at cursor `c`: a length below 9, then one
/// character of the alphabet per byte.
pub open spec fn text_at(data: Seq<u8>, c: int) -> Seq<char> {
    Seq::new(
        (byte_at(data, c) % 9) as nat,
        |j: int| text_alphabet()[(byte_at(data, c + 1 + j) % 14) as int],
    )
}

/// Reading never fails: inside the input a byte is the input's own, and at or past its end
/// (or before its start) it is 0.
pub proof fn lemma_bytes_past_end_are_zero(data: Seq<u8>, i: int)
    ensures
        0 <= i < data.len() ==> byte_at(data, i) == data[i],
        !(0 <= i < data.len()) ==> byte_at(data, i) == 0,
{
}

/// A text read at cursor `c` has the length named by the byte at `c`, modulo 9, and its
/// `j`-th character is element `b % 14` of the list `a b c 0 1 2 é 💕 [ . \ space newline x`,
/// where `b` is the byte after the length byte and `j` further bytes on.
pub proof fn lemma_text_characters(data: Seq<u8>, c: int)
    ensures
        text_at(data, c).len() == byte_at(data, c) % 9,
        forall|j: int| 0 <= j < text_at(data, c).len() ==> #[trigger] text_at(data, c)[j] == seq![
            'a', 'b', 'c', '0', '1', '2', '\u{E9}', '\u{1F495}', '[', '.', '\\', ' ', '\n', 'x',
        ][(byte_at(data, c + 1 + j) % 14) as int],
{
    assert(text_alphabet() =~= seq![
        'a', 'b', 'c', '0', '1', '2', '\u{E9}', '\u{1F495}', '[', '.', '\\', ' ', '\n', 'x',
    ]);
}

/// A reader of fuzzer bytes.
pub struct Bytes<'a> {
    data: &'a [u8],
    position: usize,
}

impl<'a> Bytes<'a> {
    /// The bytes being read.
    pub closed spec fn stream(&self) -> Seq<u8> {
        self.data@
    }

    /// The index of the next byte to read.
    pub closed spec fn cursor(&self) -> nat {
        self.position as nat
    }

    /// A reader positioned at the first byte of `data`.
    pub fn new(data: &'a [u8]) -> (bytes: Self)
        ensures
            bytes.stream() == data@,
            bytes.cursor() == 0,
    {
        Self { data, position: 0 }
    }

    /// Reads one byte; past the end of the input, the byte is 0.
    pub(crate) fn next(&mut self) -> (byte: u8)
        requires
            old(self).cursor() < usize::MAX,
        ensures
            byte == byte_at(old(self).stream(), old(self).cursor() as int),
            old(self).cursor() < old(self).stream().len() ==> byte == old(self).stream()[old(self).cursor() as int],
            old(self).cursor() >= old(self).stream().len() ==> byte == 0,
            final(self).stream() == old(self).stream(),
            final(self).cursor() == old(self).cursor() + 1,
    {
        let byte = if self.position < self.data.len() {
            self.data[self.position]
        } else {
            0
        };
        self.position += 1;
        byte
    }

    /// Reads one byte and reduces it below `choices`.
    pub(crate) fn pick(&mut self, choices: u8) -> (choice: u8)
        requires
            choices > 0,
            old(self).cursor() < usize::MAX,
        ensures
            choice == byte_at(old(self).stream(), old(self).cursor() as int) % choices,
            final(self).stream() == old(self).stream(),
            final(self).cursor() == old(self).cursor() + 1,
    {
        self.next() % choices
    }

    /// Reads a short text: one byte for its length (below 9), then one byte per character.
    pub fn text(&mut self) -> (text: String)
        requires
            old(self).cursor() + 1 + byte_at(old(self).stream(), old(self).cursor() as int) % 9 <= usize::MAX,
        ensures
            text@ == text_at(old(self).stream(), old(self).cursor() as int),
            text@.len() == byte_at(old(self).stream(), old(self).cursor() as int) % 9,
            forall|j: int| 0 <= j < text@.len() ==> #[trigger] text@[j] == seq![
                'a', 'b', 'c', '0', '1', '2', '\u{E9}', '\u{1F495}', '[', '.', '\\', ' ', '\n', 'x',
            ][(byte_at(old(self).stream(), old(self).cursor() + 1 + j) % 14) as int],
            text@.len() <= 8,
            final(self).stream() == old(self).stream(),
            final(self).cursor() == old(self).cursor() + 1 + text@.len(),
    {
        let ghost data = self.stream();
        let ghost c = self.cursor() as int;
        let length = self.pick(9) as usize;
        let mut text = String::new();
        let mut i: usize = 0;
        while i < length
            invariant
                i <= length,
                length == byte_at(data, c) % 9,
                self.stream() == data,
                self.cursor() == c + 1 + i,
                c + 1 + length <= usize::MAX,
                text@ =~= text_at(data, c).take(i as int),
            decreases length - i,
        {
            let index = self.pick(14);
            push_char(&mut text, alphabet_char(index));
            i = i + 1;
        }
        assert(text@ =~= text_at(data, c));
        proof {
            lemma_text_characters(data, c);
        }
        text
    }
}

/// The character of the alphabet at `index`.
fn alphabet_char(index: u8) -> (c: char)
    requires
        index < 14,
    ensures
        c == text_alphabet()[index as int],
{
    match index {
        0 => 'a',
        1 => 'b',
        2 => 'c',
        3 => '0',
        4 => '1',
        5 => '2',
        6 => '\u{e9}',
        7 => '\u{1f495}',
        8 => '[',
        9 => '.',
        10 => '\\',
        11 => ' ',
        12 => '\n',
        _ => 'x',
    }
}

} // verus!
