//! A generator of expression trees built directly, including the constants and unsimplified
//! forms that parsing a pattern would never produce, each with a text in its language when
//! the language is not empty.
use vstd::prelude::*;
use vstd::string::*;

use crate::bytes::{byte_at, lemma_same_from_shift, same_from, Bytes};
use crate::regex::{
    accepts, count_allows, in_range, lemma_accepts_concat, lemma_accepts_count, lemma_repeats_last,
    lemma_repeats_zero, repeats, CharRange, Count, Expr, Regex,
};
use crate::pattern::lemma_repeat_seq_repeats;
use crate::strings::{repeat, repeat_seq};

verus! {

/// A generated tree, maybe a text in its language, and where reading stopped.
pub ghost struct GeneratedTree {
    pub expr: Expr,
    pub witness: Option<Seq<char>>,
    pub cursor: int,
}

/// The characters of an optional text.
pub open spec fn text_view(text: Option<String>) -> Option<Seq<char>> {
    match text {
        Some(s) => Some(s@),
        None => None,
    }
}

/// The leaf that [`tree`] reads at cursor `c`.
pub open spec fn generate_tree_atom(data: Seq<u8>, c: int) -> GeneratedTree {
    let kind = byte_at(data, c) % 8;
    let (expr, witness) = if kind == 0 {
        (Expr::Empty, None)
    } else if kind == 1 {
        (Expr::Epsilon, Some(Seq::<char>::empty()))
    } else if kind == 2 {
        (Expr::Literal('a'), Some(seq!['a']))
    } else if kind == 3 {
        (Expr::Literal('b'), Some(seq!['b']))
    } else if kind == 4 {
        (Expr::Literal('\u{e9}'), Some(seq!['\u{e9}']))
    } else if kind == 5 {
        (Expr::Class(seq![CharRange::Range('a', 'c')]), Some(seq!['c']))
    } else if kind == 6 {
        (Expr::Class(seq![CharRange::Single('b'), CharRange::Range('0', '2')]), Some(seq!['2']))
    } else {
        (Expr::Class(Seq::empty()), None)
    };
    GeneratedTree { expr, witness, cursor: c + 1 }
}

/// The count of a repetition node: kind 0 is exact, kind 1 a range, kind 2 a lower bound.
pub open spec fn count_of(kind: u8, min: nat, max: nat) -> Count {
    if kind == 0 {
        Count::Exact(min as usize)
    } else if kind == 1 {
        Count::Range(min as usize, max as usize)
    } else {
        Count::AtLeast(min as usize)
    }
}

/// The tree that [`tree`] generates from cursor `c` of the input.
pub open spec fn generate_tree(data: Seq<u8>, c: int, depth: nat) -> GeneratedTree
    decreases depth,
{
    if depth == 0 {
        generate_tree_atom(data, c)
    } else {
        let shape = byte_at(data, c) % 8;
        let d = (depth - 1) as nat;
        if shape <= 2 {
            generate_tree_atom(data, c + 1)
        } else if shape == 3 {
            let left = generate_tree(data, c + 1, d);
            let right = generate_tree(data, left.cursor, d);
            let expr = Expr::Or(Box::new(left.expr), Box::new(right.expr));
            match (left.witness, right.witness) {
                (Some(l), Some(r)) => GeneratedTree {
                    expr,
                    witness: Some(
                        if byte_at(data, right.cursor) % 2 == 0 {
                            l
                        } else {
                            r
                        },
                    ),
                    cursor: right.cursor + 1,
                },
                (Some(l), None) => GeneratedTree { expr, witness: Some(l), cursor: right.cursor },
                (None, r) => GeneratedTree { expr, witness: r, cursor: right.cursor },
            }
        } else if shape == 4 {
            let left = generate_tree(data, c + 1, d);
            let right = generate_tree(data, left.cursor, d);
            GeneratedTree {
                expr: Expr::Concat(Box::new(left.expr), Box::new(right.expr)),
                witness: match (left.witness, right.witness) {
                    (Some(l), Some(r)) => Some(l + r),
                    _ => None,
                },
                cursor: right.cursor,
            }
        } else {
            let kind = byte_at(data, c + 1) % 3;
            let min = (byte_at(data, c + 2) % 4) as nat;
            let max = (byte_at(data, c + 3) % 4) as nat;
            let inner = generate_tree(data, c + 4, d);
            let expr = Expr::Count(Box::new(inner.expr), count_of(kind, min, max));
            if kind == 1 && min > max {
                GeneratedTree { expr, witness: None, cursor: inner.cursor }
            } else {
                match inner.witness {
                    Some(w) => {
                        let b = byte_at(data, inner.cursor) as nat;
                        if kind == 0 {
                            GeneratedTree { expr, witness: Some(repeat_seq(w, min)), cursor: inner.cursor }
                        } else if kind == 1 {
                            GeneratedTree {
                                expr,
                                witness: Some(repeat_seq(w, min + b % ((max - min + 1) as nat))),
                                cursor: inner.cursor + 1,
                            }
                        } else {
                            GeneratedTree {
                                expr,
                                witness: Some(repeat_seq(w, min + b % 3)),
                                cursor: inner.cursor + 1,
                            }
                        }
                    },
                    None => GeneratedTree {
                        expr,
                        witness: if min == 0 {
                            Some(Seq::empty())
                        } else {
                            None
                        },
                        cursor: inner.cursor,
                    },
                }
            }
        }
    }
}

/// Both constants are generated leaves: a leaf byte that is 0 modulo 8 gives the empty
/// language with no text, and one that is 1 modulo 8 gives the empty string's language with
/// the empty text. A node whose shape byte is below 3 modulo 8 is the leaf at the next byte.
pub proof fn lemma_constant_leaves(data: Seq<u8>, c: int, depth: nat)
    ensures
        data.len() > c >= 0 && data[c] % 8 == 0 ==> generate_tree(data, c, 0).expr == Expr::Empty
            && generate_tree(data, c, 0).witness is None,
        data.len() > c >= 0 && data[c] % 8 == 1 ==> generate_tree(data, c, 0).expr == Expr::Epsilon
            && generate_tree(data, c, 0).witness == Some(Seq::<char>::empty()),
        generate_tree(data, c, 0).cursor == c + 1,
        depth > 0 && byte_at(data, c) % 8 <= 2 ==> generate_tree(data, c, depth) == generate_tree(
            data,
            c + 1,
            0,
        ),
{
}

/// The other leaves: a leaf byte of 2, 3 or 4 modulo 8 gives the literal `a`, `b` or `é`
/// with itself as text, 5 the class `[a-c]` with text `c`, 6 the class `[b0-2]` with text
/// `2`, and 7 the empty class with no text.
pub proof fn lemma_tree_leaves(data: Seq<u8>, c: int)
    ensures
        ({
            let g = generate_tree(data, c, 0);
            let k = byte_at(data, c) % 8;
            &&& k == 2 ==> g.expr == Expr::Literal('a') && g.witness == Some(seq!['a'])
            &&& k == 3 ==> g.expr == Expr::Literal('b') && g.witness == Some(seq!['b'])
            &&& k == 4 ==> g.expr == Expr::Literal('\u{E9}') && g.witness == Some(seq!['\u{E9}'])
            &&& k == 5 ==> g.expr == Expr::Class(seq![CharRange::Range('a', 'c')]) && g.witness == Some(seq!['c'])
            &&& k == 6 ==> g.expr == Expr::Class(seq![CharRange::Single('b'), CharRange::Range('0', '2')])
                && g.witness == Some(seq!['2'])
            &&& k == 7 ==> g.expr == Expr::Class(Seq::empty()) && g.witness is None
        }),
{
}

/// The inner nodes, above depth 0, by the shape byte modulo 8: 3 is the alternation of two
/// trees, whose text is the left one when both have one and the byte after them is even, the
/// right one when both have one and that byte is odd, and otherwise whichever exists; 4 is
/// the concatenation, whose text joins both texts when both exist; 5 to 7 repeat the tree
/// that starts four bytes on, by a count whose kind (exact, range, lower bound) and two
/// bounds below 4 come from the three bytes in between, and whose text repeats the inner
/// text: exactly `min` times, `min` plus the next byte modulo `max - min + 1` times, or
/// `min` plus the next byte modulo 3 times; a range with `min > max` has no text, and an
/// inner tree without text gives the empty text when `min` is 0 and none otherwise.
pub proof fn lemma_tree_nodes(data: Seq<u8>, c: int, depth: nat)
    requires
        depth > 0,
    ensures
        ({
            let g = generate_tree(data, c, depth);
            let shape = byte_at(data, c) % 8;
            let d = (depth - 1) as nat;
            let left = generate_tree(data, c + 1, d);
            let right = generate_tree(data, left.cursor, d);
            &&& shape == 3 ==> {
                &&& g.expr == Expr::Or(Box::new(left.expr), Box::new(right.expr))
                &&& (left.witness is Some && right.witness is Some) ==> g.witness == if byte_at(
                    data,
                    right.cursor,
                ) % 2 == 0 {
                    left.witness
                } else {
                    right.witness
                }
                &&& left.witness is Some && right.witness is None ==> g.witness == left.witness
                &&& left.witness is None ==> g.witness == right.witness
            }
            &&& shape == 4 ==> {
                &&& g.expr == Expr::Concat(Box::new(left.expr), Box::new(right.expr))
                &&& g.witness == if left.witness is Some && right.witness is Some {
                    Some(left.witness->0 + right.witness->0)
                } else {
                    None
                }
            }
        }),
        ({
            let g = generate_tree(data, c, depth);
            let kind = byte_at(data, c + 1) % 3;
            let min = byte_at(data, c + 2) % 4;
            let max = byte_at(data, c + 3) % 4;
            let inner = generate_tree(data, c + 4, (depth - 1) as nat);
            let b = byte_at(data, inner.cursor) as int;
            byte_at(data, c) % 8 >= 5 ==> {
                &&& kind == 0 ==> g.expr == Expr::Count(Box::new(inner.expr), Count::Exact(min as usize))
                &&& kind == 1 ==> g.expr == Expr::Count(Box::new(inner.expr), Count::Range(min as usize, max as usize))
                &&& kind == 2 ==> g.expr == Expr::Count(Box::new(inner.expr), Count::AtLeast(min as usize))
                &&& kind == 1 && min > max ==> g.witness is None
                &&& !(kind == 1 && min > max) && inner.witness is Some ==> g.witness == Some(
                    repeat_seq(
                        inner.witness->0,
                        (min + if kind == 0 {
                            0
                        } else if kind == 1 {
                            b % (max - min + 1)
                        } else {
                            b % 3
                        }) as nat,
                    ),
                )
                &&& !(kind == 1 && min > max) && inner.witness is None ==> g.witness == if min == 0 {
                    Some(Seq::<char>::empty())
                } else {
                    None
                }
            }
        }),
{
}

/// Once the input has run out, every tree is the empty language with no text: the bytes
/// read there are 0, which pick a leaf and then the empty leaf.
pub proof fn lemma_exhausted_tree(data: Seq<u8>, c: int, depth: nat)
    requires
        c >= data.len(),
    ensures
        generate_tree(data, c, depth).expr == Expr::Empty,
        generate_tree(data, c, depth).witness is None,
        generate_tree(data, c, depth).cursor == c + if depth == 0 {
            1int
        } else {
            2int
        },
{
}

/// Generation reads at least one byte and never moves back.
pub proof fn lemma_tree_advances(data: Seq<u8>, c: int, depth: nat)
    ensures
        c < generate_tree(data, c, depth).cursor,
    decreases depth,
{
    if depth > 0 {
        let shape = byte_at(data, c) % 8;
        let d = (depth - 1) as nat;
        if shape == 3 || shape == 4 {
            lemma_tree_advances(data, c + 1, d);
            lemma_tree_advances(data, generate_tree(data, c + 1, d).cursor, d);
        } else if shape >= 5 {
            lemma_tree_advances(data, c + 4, d);
        }
    }
}

/// What every generated tree satisfies: its witness, when there is one, is in its language,
/// and there is none only when the language is empty.
pub open spec fn witness_ok(g: GeneratedTree) -> bool {
    &&& g.witness matches Some(w) ==> accepts(g.expr, w)
    &&& g.witness is None ==> forall|t: Seq<char>| !accepts(g.expr, t)
}

proof fn lemma_tree_atom_witness(data: Seq<u8>, c: int)
    ensures
        witness_ok(generate_tree_atom(data, c)),
{
    let g = generate_tree_atom(data, c);
    let kind = byte_at(data, c) % 8;
    if kind == 2 || kind == 3 || kind == 4 {
        assert(g.witness->0 =~= seq![g.expr->Literal_0]);
    } else if kind == 5 {
        assert(in_range(seq![CharRange::Range('a', 'c')][0], 'c'));
    } else if kind == 6 {
        assert(in_range(seq![CharRange::Single('b'), CharRange::Range('0', '2')][1], '2'));
    }
}

proof fn lemma_or_witness(left: GeneratedTree, right: GeneratedTree, g: GeneratedTree)
    requires
        witness_ok(left),
        witness_ok(right),
        g.expr == Expr::Or(Box::new(left.expr), Box::new(right.expr)),
        g.witness is None <==> (left.witness is None && right.witness is None),
        g.witness matches Some(w) ==> (left.witness == Some(w) || right.witness == Some(w)),
    ensures
        witness_ok(g),
{
    if let Some(w) = g.witness {
        assert(accepts(left.expr, w) || accepts(right.expr, w));
    } else {
        assert forall|t: Seq<char>| !accepts(g.expr, t) by {
            assert(!accepts(left.expr, t));
            assert(!accepts(right.expr, t));
        }
    }
}

proof fn lemma_concat_witness(left: GeneratedTree, right: GeneratedTree, g: GeneratedTree)
    requires
        witness_ok(left),
        witness_ok(right),
        g.expr == Expr::Concat(Box::new(left.expr), Box::new(right.expr)),
        g.witness == (match (left.witness, right.witness) {
            (Some(l), Some(r)) => Some(l + r),
            _ => None::<Seq<char>>,
        }),
    ensures
        witness_ok(g),
{
    if let (Some(l), Some(r)) = (left.witness, right.witness) {
        let w = l + r;
        lemma_accepts_concat(left.expr, right.expr, w);
        assert(w.take(l.len() as int) =~= l);
        assert(w.skip(l.len() as int) =~= r);
    } else {
        assert forall|t: Seq<char>| !accepts(g.expr, t) by {
            lemma_accepts_concat(left.expr, right.expr, t);
            if accepts(g.expr, t) {
                let k = choose|k: int|
                    0 <= k <= t.len() && accepts(left.expr, #[trigger] t.take(k)) && accepts(right.expr, t.skip(k));
            }
        }
    }
}

proof fn lemma_count_witness(data: Seq<u8>, c: int, d: nat)
    requires
        byte_at(data, c) % 8 >= 5,
        witness_ok(generate_tree(data, c + 4, d)),
    ensures
        witness_ok(generate_tree(data, c, d + 1)),
{
    let g = generate_tree(data, c, d + 1);
    let kind = byte_at(data, c + 1) % 3;
    let min = (byte_at(data, c + 2) % 4) as nat;
    let max = (byte_at(data, c + 3) % 4) as nat;
    let inner = generate_tree(data, c + 4, d);
    let count = count_of(kind, min, max);
    assert(g.expr == Expr::Count(Box::new(inner.expr), count));
    if kind == 1 && min > max {
        assert forall|t: Seq<char>| !accepts(g.expr, t) by {
            lemma_accepts_count(inner.expr, count, t);
            if accepts(g.expr, t) {
                let n = choose|n: nat| count_allows(count, n) && #[trigger] repeats(inner.expr, n, t);
            }
        }
    } else {
        match inner.witness {
            Some(w) => {
                let b = byte_at(data, inner.cursor) as nat;
                let reps = if kind == 0 {
                    min
                } else if kind == 1 {
                    min + b % ((max - min + 1) as nat)
                } else {
                    min + b % 3
                };
                assert(g.witness == Some(repeat_seq(w, reps)));
                lemma_repeat_seq_repeats(inner.expr, w, reps);
                assert(count_allows(count, reps));
                lemma_accepts_count(inner.expr, count, repeat_seq(w, reps));
            },
            None => {
                if min == 0 {
                    lemma_repeats_zero(inner.expr, Seq::<char>::empty());
                    assert(count_allows(count, 0));
                    lemma_accepts_count(inner.expr, count, Seq::<char>::empty());
                } else {
                    assert forall|t: Seq<char>| !accepts(g.expr, t) by {
                        lemma_accepts_count(inner.expr, count, t);
                        if accepts(g.expr, t) {
                            let n = choose|n: nat| count_allows(count, n) && #[trigger] repeats(inner.expr, n, t);
                            lemma_repeats_last(inner.expr, (n - 1) as nat, t);
                        }
                    }
                }
            },
        }
    }
}

/// A generated tree's witness, when there is one, is in its language, and there is none
/// only when the language is empty.
pub proof fn lemma_tree_witness(data: Seq<u8>, c: int, depth: nat)
    ensures
        witness_ok(generate_tree(data, c, depth)),
    decreases depth,
{
    if depth == 0 {
        lemma_tree_atom_witness(data, c);
    } else {
        let shape = byte_at(data, c) % 8;
        let d = (depth - 1) as nat;
        if shape <= 2 {
            lemma_tree_atom_witness(data, c + 1);
        } else if shape == 3 || shape == 4 {
            let left = generate_tree(data, c + 1, d);
            let right = generate_tree(data, left.cursor, d);
            lemma_tree_witness(data, c + 1, d);
            lemma_tree_witness(data, left.cursor, d);
            if shape == 3 {
                lemma_or_witness(left, right, generate_tree(data, c, depth));
            } else {
                lemma_concat_witness(left, right, generate_tree(data, c, depth));
            }
        } else {
            lemma_tree_witness(data, c + 4, d);
            lemma_count_witness(data, c, d);
        }
    }
}

/// Generation depends only on the bytes met from the cursor on: two readers that meet the
/// same bytes give the same tree and witness and move on by the same number of bytes.
pub proof fn lemma_tree_same_stream(d1: Seq<u8>, c1: int, d2: Seq<u8>, c2: int, depth: nat)
    requires
        same_from(d1, c1, d2, c2),
    ensures
        generate_tree(d1, c1, depth).expr == generate_tree(d2, c2, depth).expr,
        generate_tree(d1, c1, depth).witness == generate_tree(d2, c2, depth).witness,
        generate_tree(d1, c1, depth).cursor - c1 == generate_tree(d2, c2, depth).cursor - c2,
    decreases depth,
{
    lemma_same_from_shift(d1, c1, d2, c2, 0);
    lemma_same_from_shift(d1, c1, d2, c2, 1);
    if depth > 0 {
        let shape = byte_at(d1, c1) % 8;
        let d = (depth - 1) as nat;
        if shape == 3 || shape == 4 {
            lemma_tree_same_stream(d1, c1 + 1, d2, c2 + 1, d);
            lemma_tree_advances(d1, c1 + 1, d);
            let left1 = generate_tree(d1, c1 + 1, d);
            let left2 = generate_tree(d2, c2 + 1, d);
            lemma_same_from_shift(d1, c1, d2, c2, left1.cursor - c1);
            lemma_tree_same_stream(d1, left1.cursor, d2, left2.cursor, d);
            lemma_tree_advances(d1, left1.cursor, d);
            let right1 = generate_tree(d1, left1.cursor, d);
            lemma_same_from_shift(d1, c1, d2, c2, right1.cursor - c1);
        } else if shape >= 5 {
            lemma_same_from_shift(d1, c1, d2, c2, 2);
            lemma_same_from_shift(d1, c1, d2, c2, 3);
            lemma_same_from_shift(d1, c1, d2, c2, 4);
            lemma_tree_same_stream(d1, c1 + 4, d2, c2 + 4, d);
            lemma_tree_advances(d1, c1 + 4, d);
            let inner1 = generate_tree(d1, c1 + 4, d);
            lemma_same_from_shift(d1, c1, d2, c2, inner1.cursor - c1);
        }
    }
}

/// Reads one leaf: a constant, a literal or a class.
fn tree_atom(bytes: &mut Bytes<'_>) -> (generated: (Regex, Option<String>))
    requires
        old(bytes).cursor() < usize::MAX,
    ensures
        ({
            let g = generate_tree_atom(old(bytes).stream(), old(bytes).cursor() as int);
            &&& generated.0@ == g.expr
            &&& text_view(generated.1) == g.witness
            &&& final(bytes).cursor() == g.cursor
        }),
        final(bytes).stream() == old(bytes).stream(),
{
    let kind = bytes.pick(8);
    let mut text = String::new();
    if kind == 0 {
        (Regex::Empty, None)
    } else if kind == 1 {
        (Regex::Epsilon, Some(text))
    } else if kind == 2 {
        crate::strings::push_char(&mut text, 'a');
        (Regex::Literal('a'), Some(text))
    } else if kind == 3 {
        crate::strings::push_char(&mut text, 'b');
        (Regex::Literal('b'), Some(text))
    } else if kind == 4 {
        crate::strings::push_char(&mut text, '\u{e9}');
        (Regex::Literal('\u{e9}'), Some(text))
    } else if kind == 5 {
        crate::strings::push_char(&mut text, 'c');
        let ranges = vec![CharRange::Range('a', 'c')];
        assert(ranges@ =~= seq![CharRange::Range('a', 'c')]);
        (Regex::Class(ranges), Some(text))
    } else if kind == 6 {
        crate::strings::push_char(&mut text, '2');
        let ranges = vec![CharRange::Single('b'), CharRange::Range('0', '2')];
        assert(ranges@ =~= seq![CharRange::Single('b'), CharRange::Range('0', '2')]);
        (Regex::Class(ranges), Some(text))
    } else {
        let ranges: Vec<CharRange> = Vec::new();
        assert(ranges@ =~= Seq::<CharRange>::empty());
        (Regex::Class(ranges), None)
    }
}

/// Generates an expression tree and, unless its language is empty, a text in it.
pub fn tree(bytes: &mut Bytes<'_>, depth: u8) -> (generated: (Regex, Option<String>))
    requires
        generate_tree(old(bytes).stream(), old(bytes).cursor() as int, depth as nat).cursor <= usize::MAX,
    ensures
        ({
            let g = generate_tree(old(bytes).stream(), old(bytes).cursor() as int, depth as nat);
            &&& generated.0@ == g.expr
            &&& text_view(generated.1) == g.witness
            &&& final(bytes).cursor() == g.cursor
        }),
        final(bytes).stream() == old(bytes).stream(),
        generated.1 matches Some(w) ==> accepts(generated.0@, w@),
        generated.1 is None ==> forall|t: Seq<char>| !accepts(generated.0@, t),
    decreases depth,
{
    let ghost data = bytes.stream();
    let ghost c = bytes.cursor() as int;
    proof {
        lemma_tree_advances(data, c, depth as nat);
        lemma_tree_witness(data, c, depth as nat);
    }
    if depth == 0 {
        return tree_atom(bytes);
    }
    let ghost d = (depth - 1) as nat;
    let shape = bytes.pick(8);
    if shape <= 2 {
        tree_atom(bytes)
    } else if shape == 3 {
        proof {
            lemma_tree_advances(data, c + 1, d);
            lemma_tree_advances(data, generate_tree(data, c + 1, d).cursor, d);
        }
        let (left, left_text) = tree(bytes, depth - 1);
        let (right, right_text) = tree(bytes, depth - 1);
        let text = match (left_text, right_text) {
            (Some(l), Some(r)) => Some(
                if bytes.pick(2) == 0 {
                    l
                } else {
                    r
                },
            ),
            (Some(l), None) => Some(l),
            (None, r) => r,
        };
        (Regex::Or(Box::new(left), Box::new(right)), text)
    } else if shape == 4 {
        proof {
            lemma_tree_advances(data, c + 1, d);
            lemma_tree_advances(data, generate_tree(data, c + 1, d).cursor, d);
        }
        let (left, left_text) = tree(bytes, depth - 1);
        let (right, right_text) = tree(bytes, depth - 1);
        let text = match (left_text, right_text) {
            (Some(l), Some(r)) => Some(l.concat(r.as_str())),
            _ => None,
        };
        (Regex::Concat(Box::new(left), Box::new(right)), text)
    } else {
        proof {
            lemma_tree_advances(data, c + 4, d);
        }
        let kind = bytes.next() % 3;
        let min = bytes.pick(4) as usize;
        let max = bytes.pick(4) as usize;
        let (inner, inner_text) = tree(bytes, depth - 1);
        let count = if kind == 0 {
            Count::Exact(min)
        } else if kind == 1 {
            Count::Range(min, max)
        } else {
            Count::AtLeast(min)
        };
        let text = if kind == 1 && min > max {
            None
        } else {
            match inner_text {
                Some(inner_text) => {
                    let repetitions = if kind == 0 {
                        min
                    } else if kind == 1 {
                        min + bytes.pick((max - min + 1) as u8) as usize
                    } else {
                        min + bytes.pick(3) as usize
                    };
                    Some(repeat(inner_text.as_str(), repetitions))
                },
                None => if min == 0 {
                    Some(String::new())
                } else {
                    None
                },
            }
        };
        (Regex::Count(Box::new(inner), count), text)
    }
}

} // verus!
