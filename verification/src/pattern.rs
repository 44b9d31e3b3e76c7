//! A generator of valid patterns, each with a text in its language.
//!
//! The small grammar reaches classes, escapes, counts, alternation, nesting and Unicode
//! without requiring a fuzzer to invent balanced syntax by mutating bytes.
use vstd::prelude::*;
use vstd::string::*;

use crate::bytes::{byte_at, lemma_same_from_shift, same_from, Bytes};
use crate::regex::{
    accepts, count_allows, in_range, lemma_accepts_concat, lemma_accepts_count, lemma_repeats_extend,
    lemma_repeats_zero, repeats, CharRange, Count, Expr,
};
use crate::strings::{repeat, repeat_seq};
use crate::syntax::{
    lemma_read_at_least, lemma_read_between, lemma_read_class_escape, lemma_read_class_pair,
    lemma_read_class_range, lemma_read_escaped, lemma_read_exact, lemma_read_plain, lemma_read_symbol,
    alternate_all, balanced, concat_all, ends_piece, lemma_balanced_concat, lemma_balanced_flat,
    lemma_balanced_group, lemma_lone_alternative, lemma_lone_piece,
    lemma_read_concat_groups, lemma_read_counted_group, lemma_read_or_group, read_pattern,
    read_primary, read_quantifier, read_sequence,
};

verus! {

/// Which syntax the generated patterns may use.
#[derive(Clone, Copy, Debug, PartialEq, Eq)]
pub enum Dialect {
    /// Syntax that both this crate's expression language and common regex engines read alike.
    Shared,
    /// Also the class escapes `\d`, `\w` and `\s`.
    Native,
}

/// Whether a byte may appear in a pattern of the shared syntax: an ASCII letter or digit,
/// or one of `(`, `)`, `|`, `*`, `+`, `?`.
pub open spec fn shared_byte(b: u8) -> bool {
    ||| 0x30 <= b <= 0x39
    ||| 0x41 <= b <= 0x5a
    ||| 0x61 <= b <= 0x7a
    ||| b == 0x28 || b == 0x29 || b == 0x7c || b == 0x2a || b == 0x2b || b == 0x3f
}

/// The shared syntax is exactly the ASCII letters and digits and the six operators
/// `( ) | * + ?`: no brace, bracket, backslash, dot or other byte belongs to it.
pub proof fn lemma_shared_bytes(b: u8)
    ensures
        shared_byte(b) <==> {
            ||| ('0' as u8) <= b <= ('9' as u8)
            ||| ('A' as u8) <= b <= ('Z' as u8)
            ||| ('a' as u8) <= b <= ('z' as u8)
            ||| b == ('(' as u8) || b == (')' as u8) || b == ('|' as u8) || b == ('*' as u8) || b == ('+' as u8) || b == ('?' as u8)
        },
        !shared_byte('{' as u8) && !shared_byte('}' as u8) && !shared_byte('[' as u8) && !shared_byte(('\\' as u8))
            && !shared_byte('.' as u8) && !shared_byte('-' as u8) && !shared_byte(',' as u8) && !shared_byte(' ' as u8),
{
}

/// Whether every byte of `pattern` is an ASCII letter or digit or one of `()|*+?`, the
/// syntax on which this crate's expressions and common regex engines agree.
pub fn in_shared_alphabet(pattern: &str) -> (shared: bool)
    ensures
        shared == forall|i: int| 0 <= i < pattern.spec_bytes().len() ==> shared_byte(#[trigger] pattern.spec_bytes()[i]),
        shared == forall|i: int| 0 <= i < pattern.spec_bytes().len() ==> {
            let b = #[trigger] pattern.spec_bytes()[i];
            ||| ('0' as u8) <= b <= ('9' as u8)
            ||| ('A' as u8) <= b <= ('Z' as u8)
            ||| ('a' as u8) <= b <= ('z' as u8)
            ||| b == ('(' as u8) || b == (')' as u8) || b == ('|' as u8) || b == ('*' as u8) || b == ('+' as u8) || b == ('?' as u8)
        },
        (exists|i: int| 0 <= i < pattern.spec_bytes().len() && (#[trigger] pattern.spec_bytes()[i] == ('{' as u8)
            || pattern.spec_bytes()[i] == ('}' as u8) || pattern.spec_bytes()[i] == ('[' as u8) || pattern.spec_bytes()[i] == ('\\' as u8)
            || pattern.spec_bytes()[i] == ('.' as u8))) ==> !shared,
{
    proof {
        assert forall|b: u8| #[trigger] shared_byte(b) == {
            ||| ('0' as u8) <= b <= ('9' as u8)
            ||| ('A' as u8) <= b <= ('Z' as u8)
            ||| ('a' as u8) <= b <= ('z' as u8)
            ||| b == ('(' as u8) || b == (')' as u8) || b == ('|' as u8) || b == ('*' as u8) || b == ('+' as u8) || b == ('?' as u8)
        } by {
            lemma_shared_bytes(b);
        }
    }
    let bytes = pattern.as_bytes();
    let mut i: usize = 0;
    while i < bytes.len()
        invariant
            bytes@ == pattern.spec_bytes(),
            i <= bytes@.len(),
            forall|j: int| 0 <= j < i ==> shared_byte(#[trigger] bytes@[j]),
        decreases bytes@.len() - i,
    {
        let b = bytes[i];
        let allowed = (0x30 <= b && b <= 0x39) || (0x41 <= b && b <= 0x5a) || (0x61 <= b && b <= 0x7a)
            || b == 0x28 || b == 0x29 || b == 0x7c || b == 0x2a || b == 0x2b || b == 0x3f;
        if !allowed {
            return false;
        }
        i = i + 1;
    }
    true
}

/// A generated pattern, a text in its language, the expression the pattern denotes, and
/// where reading stopped.
pub ghost struct Generated {
    pub pattern: Seq<char>,
    pub witness: Seq<char>,
    pub expr: Expr,
    pub cursor: int,
}

/// How many atoms the dialect offers.
pub open spec fn atom_count(dialect: Dialect) -> nat {
    match dialect {
        Dialect::Shared => 11,
        Dialect::Native => 14,
    }
}

/// The syntax of atom `i`.
pub open spec fn atom_pattern(i: nat) -> Seq<char> {
    if i == 0 {
        "a"@
    } else if i == 1 {
        "b"@
    } else if i == 2 {
        "0"@
    } else if i == 3 {
        "\u{e9}"@
    } else if i == 4 {
        "\u{1f495}"@
    } else if i == 5 {
        "\\["@
    } else if i == 6 {
        "\\."@
    } else if i == 7 {
        "\\\\"@
    } else if i == 8 {
        "[a-c]"@
    } else if i == 9 {
        "[0-2]"@
    } else if i == 10 {
        "[ab]"@
    } else if i == 11 {
        "\\d"@
    } else if i == 12 {
        "\\w"@
    } else {
        "\\s"@
    }
}

/// A text that atom `i` matches.
pub open spec fn atom_text(i: nat) -> Seq<char> {
    if i == 0 {
        "a"@
    } else if i == 1 {
        "b"@
    } else if i == 2 {
        "0"@
    } else if i == 3 {
        "\u{e9}"@
    } else if i == 4 {
        "\u{1f495}"@
    } else if i == 5 {
        "["@
    } else if i == 6 {
        "."@
    } else if i == 7 {
        "\\"@
    } else if i == 8 {
        "a"@
    } else if i == 9 {
        "2"@
    } else if i == 10 {
        "b"@
    } else if i == 11 {
        "0"@
    } else if i == 12 {
        "_"@
    } else {
        "\n"@
    }
}

/// The expression that atom `i` denotes; the class escapes read as `\d` = `[0-9]`,
/// `\w` = `[a-zA-Z0-9_]` and `\s` = `[ \t\n\r]`.
pub open spec fn atom_expr(i: nat) -> Expr {
    if i == 0 {
        Expr::Literal('a')
    } else if i == 1 {
        Expr::Literal('b')
    } else if i == 2 {
        Expr::Literal('0')
    } else if i == 3 {
        Expr::Literal('\u{e9}')
    } else if i == 4 {
        Expr::Literal('\u{1f495}')
    } else if i == 5 {
        Expr::Literal('[')
    } else if i == 6 {
        Expr::Literal('.')
    } else if i == 7 {
        Expr::Literal('\\')
    } else if i == 8 {
        Expr::Class(seq![CharRange::Range('a', 'c')])
    } else if i == 9 {
        Expr::Class(seq![CharRange::Range('0', '2')])
    } else if i == 10 {
        Expr::Class(seq![CharRange::Single('a'), CharRange::Single('b')])
    } else if i == 11 {
        Expr::Class(seq![CharRange::Range('0', '9')])
    } else if i == 12 {
        Expr::Class(
            seq![
                CharRange::Range('a', 'z'),
                CharRange::Range('A', 'Z'),
                CharRange::Range('0', '9'),
                CharRange::Single('_'),
            ],
        )
    } else {
        Expr::Class(
            seq![
                CharRange::Single(' '),
                CharRange::Single('\t'),
                CharRange::Single('\n'),
                CharRange::Single('\r'),
            ],
        )
    }
}

/// The atom read at cursor `c`.
pub open spec fn generate_atom(data: Seq<u8>, c: int, dialect: Dialect) -> Generated {
    let i = (byte_at(data, c) as nat) % atom_count(dialect);
    Generated { pattern: atom_pattern(i), witness: atom_text(i), expr: atom_expr(i), cursor: c + 1 }
}

/// The syntax of quantifier `q`.
pub open spec fn quantifier_pattern(q: nat) -> Seq<char> {
    if q == 0 {
        "*"@
    } else if q == 1 {
        "+"@
    } else if q == 2 {
        "?"@
    } else if q == 3 {
        "{0}"@
    } else if q == 4 {
        "{1}"@
    } else if q == 5 {
        "{2}"@
    } else if q == 6 {
        "{0,2}"@
    } else if q == 7 {
        "{1,2}"@
    } else {
        "{2,}"@
    }
}

/// The count that quantifier `q` denotes.
pub open spec fn quantifier_count(q: nat) -> Count {
    if q == 0 {
        Count::AtLeast(0)
    } else if q == 1 {
        Count::AtLeast(1)
    } else if q == 2 {
        Count::Range(0, 1)
    } else if q == 3 {
        Count::Exact(0)
    } else if q == 4 {
        Count::Exact(1)
    } else if q == 5 {
        Count::Exact(2)
    } else if q == 6 {
        Count::Range(0, 2)
    } else if q == 7 {
        Count::Range(1, 2)
    } else {
        Count::AtLeast(2)
    }
}

/// Whether quantifier `q` reads a byte to choose how often the witness repeats.
pub open spec fn quantifier_reads(q: nat) -> bool {
    !(q == 3 || q == 4 || q == 5)
}

/// How often the witness repeats under quantifier `q`, reading at cursor `c` if it reads.
pub open spec fn quantifier_repeats(data: Seq<u8>, c: int, q: nat) -> nat {
    let b = byte_at(data, c) as nat;
    if q == 0 {
        b % 3
    } else if q == 1 {
        b % 3 + 1
    } else if q == 2 {
        b % 2
    } else if q == 3 {
        0
    } else if q == 4 {
        1
    } else if q == 5 {
        2
    } else if q == 6 {
        b % 3
    } else if q == 7 {
        b % 2 + 1
    } else {
        b % 2 + 2
    }
}

/// The pattern that [`pattern`] generates from cursor `c` of the input.
pub open spec fn generate_pattern(data: Seq<u8>, c: int, dialect: Dialect, depth: nat) -> Generated
    decreases depth,
{
    if depth == 0 {
        generate_atom(data, c, dialect)
    } else {
        let shape = byte_at(data, c) % 8;
        if shape <= 3 {
            generate_atom(data, c + 1, dialect)
        } else if shape == 4 {
            let left = generate_pattern(data, c + 1, dialect, (depth - 1) as nat);
            let right = generate_pattern(data, left.cursor, dialect, (depth - 1) as nat);
            Generated {
                pattern: "("@ + left.pattern + ")("@ + right.pattern + ")"@,
                witness: left.witness + right.witness,
                expr: Expr::Concat(Box::new(left.expr), Box::new(right.expr)),
                cursor: right.cursor,
            }
        } else if shape == 5 {
            let left = generate_pattern(data, c + 1, dialect, (depth - 1) as nat);
            let right = generate_pattern(data, left.cursor, dialect, (depth - 1) as nat);
            Generated {
                pattern: "("@ + left.pattern + "|"@ + right.pattern + ")"@,
                witness: if byte_at(data, right.cursor) % 2 == 0 {
                    left.witness
                } else {
                    right.witness
                },
                expr: Expr::Or(Box::new(left.expr), Box::new(right.expr)),
                cursor: right.cursor + 1,
            }
        } else {
            let inner = generate_pattern(data, c + 1, dialect, (depth - 1) as nat);
            let q = (byte_at(data, inner.cursor) % 9) as nat;
            let reps = quantifier_repeats(data, inner.cursor + 1, q);
            Generated {
                pattern: "("@ + inner.pattern + ")"@ + quantifier_pattern(q),
                witness: repeat_seq(inner.witness, reps),
                expr: Expr::Count(Box::new(inner.expr), quantifier_count(q)),
                cursor: if quantifier_reads(q) {
                    inner.cursor + 2
                } else {
                    inner.cursor + 1
                },
            }
        }
    }
}

/// Generation reads at least one byte and never moves back.
pub proof fn lemma_pattern_advances(data: Seq<u8>, c: int, dialect: Dialect, depth: nat)
    ensures
        c < generate_pattern(data, c, dialect, depth).cursor,
    decreases depth,
{
    if depth > 0 {
        let shape = byte_at(data, c) % 8;
        if shape >= 4 {
            lemma_pattern_advances(data, c + 1, dialect, (depth - 1) as nat);
            let left = generate_pattern(data, c + 1, dialect, (depth - 1) as nat);
            if shape <= 5 {
                lemma_pattern_advances(data, left.cursor, dialect, (depth - 1) as nat);
            }
        }
    }
}

/// Every atom matches its text.
pub proof fn lemma_atom_accepts(i: nat)
    requires
        i < 14,
    ensures
        accepts(atom_expr(i), atom_text(i)),
{
    reveal_strlit("a");
    reveal_strlit("b");
    reveal_strlit("0");
    reveal_strlit("\u{e9}");
    reveal_strlit("\u{1f495}");
    reveal_strlit("[");
    reveal_strlit(".");
    reveal_strlit("\\");
    reveal_strlit("2");
    reveal_strlit("_");
    reveal_strlit("\n");
    let t = atom_text(i);
    if i <= 7 {
        if i == 0 { assert(t =~= seq!['a']); }
        else if i == 1 { assert(t =~= seq!['b']); }
        else if i == 2 { assert(t =~= seq!['0']); }
        else if i == 3 { assert(t =~= seq!['\u{e9}']); }
        else if i == 4 { assert(t =~= seq!['\u{1f495}']); }
        else if i == 5 { assert(t =~= seq!['[']); }
        else if i == 6 { assert(t =~= seq!['.']); }
        else { assert(t =~= seq!['\\']); }
    } else if i == 8 {
        assert(in_range(seq![CharRange::Range('a', 'c')][0], t[0]));
    } else if i == 9 {
        assert(in_range(seq![CharRange::Range('0', '2')][0], t[0]));
    } else if i == 10 {
        assert(in_range(seq![CharRange::Single('a'), CharRange::Single('b')][1], t[0]));
    } else if i == 11 {
        assert(in_range(seq![CharRange::Range('0', '9')][0], t[0]));
    } else if i == 12 {
        let ranges = seq![
            CharRange::Range('a', 'z'),
            CharRange::Range('A', 'Z'),
            CharRange::Range('0', '9'),
            CharRange::Single('_'),
        ];
        assert(in_range(ranges[3], t[0]));
    } else {
        let ranges = seq![
            CharRange::Single(' '),
            CharRange::Single('\t'),
            CharRange::Single('\n'),
            CharRange::Single('\r'),
        ];
        assert(in_range(ranges[2], t[0]));
    }
}

/// Each atom reads as the expression it denotes, whatever follows it.
pub proof fn lemma_atom_reads(i: nat, r: Seq<char>)
    requires
        i < 14,
    ensures
        atom_pattern(i).len() > 0,
        forall|j: int| 0 <= j < atom_pattern(i).len() ==> #[trigger] atom_pattern(i)[j] != '(' && atom_pattern(i)[j] != ')',
        read_primary(atom_pattern(i) + r) == Some((atom_expr(i), r)),
{
    if i == 0 {
        reveal_strlit("a");
        assert(atom_pattern(i) =~= seq!['a']);
        lemma_read_plain('a', r);
    } else if i == 1 {
        reveal_strlit("b");
        assert(atom_pattern(i) =~= seq!['b']);
        lemma_read_plain('b', r);
    } else if i == 2 {
        reveal_strlit("0");
        assert(atom_pattern(i) =~= seq!['0']);
        lemma_read_plain('0', r);
    } else if i == 3 {
        reveal_strlit("\u{e9}");
        assert(atom_pattern(i) =~= seq!['\u{e9}']);
        lemma_read_plain('\u{e9}', r);
    } else if i == 4 {
        reveal_strlit("\u{1f495}");
        assert(atom_pattern(i) =~= seq!['\u{1f495}']);
        lemma_read_plain('\u{1f495}', r);
    } else if i == 5 {
        reveal_strlit("\\[");
        assert(atom_pattern(i) =~= seq!['\\', '[']);
        lemma_read_escaped('[', r);
    } else if i == 6 {
        reveal_strlit("\\.");
        assert(atom_pattern(i) =~= seq!['\\', '.']);
        lemma_read_escaped('.', r);
    } else if i == 7 {
        reveal_strlit("\\\\");
        assert(atom_pattern(i) =~= seq!['\\', '\\']);
        lemma_read_escaped('\\', r);
    } else if i == 8 {
        reveal_strlit("[a-c]");
        assert(atom_pattern(i) =~= seq!['[', 'a', '-', 'c', ']']);
        lemma_read_class_range('a', 'c', r);
    } else if i == 9 {
        reveal_strlit("[0-2]");
        assert(atom_pattern(i) =~= seq!['[', '0', '-', '2', ']']);
        lemma_read_class_range('0', '2', r);
    } else if i == 10 {
        reveal_strlit("[ab]");
        assert(atom_pattern(i) =~= seq!['[', 'a', 'b', ']']);
        lemma_read_class_pair('a', 'b', r);
    } else if i == 11 {
        reveal_strlit("\\d");
        assert(atom_pattern(i) =~= seq!['\\', 'd']);
        lemma_read_class_escape('d', r);
    } else if i == 12 {
        reveal_strlit("\\w");
        assert(atom_pattern(i) =~= seq!['\\', 'w']);
        lemma_read_class_escape('w', r);
    } else {
        reveal_strlit("\\s");
        assert(atom_pattern(i) =~= seq!['\\', 's']);
        lemma_read_class_escape('s', r);
    }
}

/// Each quantifier reads as the count it denotes, whatever follows it.
pub proof fn lemma_quantifier_reads(q: nat, r: Seq<char>)
    requires
        q < 9,
    ensures
        forall|j: int| 0 <= j < quantifier_pattern(q).len() ==> #[trigger] quantifier_pattern(q)[j] != '('
            && quantifier_pattern(q)[j] != ')',
        read_quantifier(quantifier_pattern(q) + r) == Some((quantifier_count(q), r)),
{
    if q == 0 {
        reveal_strlit("*");
        assert(quantifier_pattern(q) =~= seq!['*']);
        lemma_read_symbol('*', r);
    } else if q == 1 {
        reveal_strlit("+");
        assert(quantifier_pattern(q) =~= seq!['+']);
        lemma_read_symbol('+', r);
    } else if q == 2 {
        reveal_strlit("?");
        assert(quantifier_pattern(q) =~= seq!['?']);
        lemma_read_symbol('?', r);
    } else if q == 3 {
        reveal_strlit("{0}");
        assert(quantifier_pattern(q) =~= seq!['{', '0', '}']);
        lemma_read_exact('0', r);
    } else if q == 4 {
        reveal_strlit("{1}");
        assert(quantifier_pattern(q) =~= seq!['{', '1', '}']);
        lemma_read_exact('1', r);
    } else if q == 5 {
        reveal_strlit("{2}");
        assert(quantifier_pattern(q) =~= seq!['{', '2', '}']);
        lemma_read_exact('2', r);
    } else if q == 6 {
        reveal_strlit("{0,2}");
        assert(quantifier_pattern(q) =~= seq!['{', '0', ',', '2', '}']);
        lemma_read_between('0', '2', r);
    } else if q == 7 {
        reveal_strlit("{1,2}");
        assert(quantifier_pattern(q) =~= seq!['{', '1', ',', '2', '}']);
        lemma_read_between('1', '2', r);
    } else {
        reveal_strlit("{2,}");
        assert(quantifier_pattern(q) =~= seq!['{', '2', ',', '}']);
        lemma_read_at_least('2', r);
    }
}

/// A generated pattern reads as one sequence whose expression is the one the generator
/// pairs with it, whatever closing parenthesis, bar or end follows it.
#[verifier::spinoff_prover]
#[verifier::rlimit(50)]
proof fn lemma_pattern_reads_before(data: Seq<u8>, c: int, dialect: Dialect, depth: nat, r: Seq<char>)
    requires
        ends_piece(r),
    ensures
        ({
            let g = generate_pattern(data, c, dialect, depth);
            read_sequence(g.pattern + r) matches Some((parts, rest)) && rest == r && concat_all(parts)
                == g.expr
        }),
    decreases depth,
{
    reveal_strlit("(");
    reveal_strlit(")");
    reveal_strlit(")(");
    reveal_strlit("|");
    let g = generate_pattern(data, c, dialect, depth);
    let s = g.pattern + r;
    if depth == 0 || byte_at(data, c) % 8 <= 3 {
        assert(read_sequence(s) matches Some((parts, rest)) && rest == r && concat_all(parts) == g.expr) by {
            let at = if depth == 0 { c } else { c + 1 };
            let i = (byte_at(data, at) as nat) % atom_count(dialect);
            lemma_atom_reads(i, r);
            lemma_lone_piece(s, atom_expr(i), r);
        }
    } else {
        let shape = byte_at(data, c) % 8;
        let d = (depth - 1) as nat;
        let left = generate_pattern(data, c + 1, dialect, d);
        if shape == 4 || shape == 5 {
            let right = generate_pattern(data, left.cursor, dialect, d);
            let after_right = seq![')'] + r;
            lemma_pattern_reads_before(data, left.cursor, dialect, d, after_right);
            let right_read = read_sequence(right.pattern + after_right)->0;
            lemma_lone_alternative(right.pattern + after_right, right_read.0, after_right);
            if shape == 4 {
                assert(read_sequence(s) matches Some((parts, rest)) && rest == r && concat_all(parts) == g.expr) by {
                    let after_left = seq![')', '('] + right.pattern + seq![')'] + r;
                    lemma_pattern_reads_before(data, c + 1, dialect, d, after_left);
                    let left_read = read_sequence(left.pattern + after_left)->0;
                    lemma_lone_alternative(left.pattern + after_left, left_read.0, after_left);
                    lemma_read_concat_groups(left.pattern, left.expr, right.pattern, right.expr, r);
                    assert(s =~= seq!['('] + left.pattern + seq![')', '('] + right.pattern + seq![')'] + r);
                }
            } else {
                assert(read_sequence(s) matches Some((parts, rest)) && rest == r && concat_all(parts) == g.expr) by {
                    let after_left = seq!['|'] + right.pattern + seq![')'] + r;
                    lemma_pattern_reads_before(data, c + 1, dialect, d, after_left);
                    let left_read = read_sequence(left.pattern + after_left)->0;
                    lemma_read_or_group(left.pattern, left_read.0, right.pattern, right.expr, r);
                    assert(s =~= seq!['('] + left.pattern + seq!['|'] + right.pattern + seq![')'] + r);
                }
            }
        } else {
            assert(read_sequence(s) matches Some((parts, rest)) && rest == r && concat_all(parts) == g.expr) by {
                let q = (byte_at(data, left.cursor) % 9) as nat;
                let qp = quantifier_pattern(q);
                let after_inner = seq![')'] + qp + r;
                lemma_pattern_reads_before(data, c + 1, dialect, d, after_inner);
                let inner_read = read_sequence(left.pattern + after_inner)->0;
                lemma_lone_alternative(left.pattern + after_inner, inner_read.0, after_inner);
                lemma_quantifier_reads(q, r);
                lemma_read_counted_group(left.pattern, left.expr, qp, quantifier_count(q), r);
                assert(s =~= seq!['('] + left.pattern + seq![')'] + qp + r);
            }
        }
    }
}

/// A generated pattern is valid syntax, and it stands for the expression the generator
/// pairs with it.
pub proof fn lemma_pattern_reads(data: Seq<u8>, c: int, dialect: Dialect, depth: nat)
    ensures
        read_pattern(generate_pattern(data, c, dialect, depth).pattern) == Some(
            generate_pattern(data, c, dialect, depth).expr,
        ),
{
    let g = generate_pattern(data, c, dialect, depth);
    let end = Seq::<char>::empty();
    lemma_pattern_reads_before(data, c, dialect, depth, end);
    assert(g.pattern + end =~= g.pattern);
    let read = read_sequence(g.pattern)->0;
    lemma_lone_alternative(g.pattern, read.0, end);
    assert(alternate_all(seq![g.expr]) == g.expr);
}

/// The parentheses of every generated pattern are balanced.
#[verifier::spinoff_prover]
#[verifier::rlimit(50)]
pub proof fn lemma_pattern_balanced(data: Seq<u8>, c: int, dialect: Dialect, depth: nat)
    ensures
        balanced(generate_pattern(data, c, dialect, depth).pattern),
    decreases depth,
{
    let g = generate_pattern(data, c, dialect, depth);
    if depth == 0 || byte_at(data, c) % 8 <= 3 {
        assert(balanced(g.pattern)) by {
            let at = if depth == 0 { c } else { c + 1 };
            let i = (byte_at(data, at) as nat) % atom_count(dialect);
            lemma_atom_reads(i, Seq::empty());
            lemma_balanced_flat(atom_pattern(i));
        }
    } else {
        let shape = byte_at(data, c) % 8;
        let d = (depth - 1) as nat;
        let left = generate_pattern(data, c + 1, dialect, d);
        lemma_pattern_balanced(data, c + 1, dialect, d);
        lemma_balanced_group(left.pattern);
        if shape == 4 {
            let right = generate_pattern(data, left.cursor, dialect, d);
            assert(balanced(g.pattern)) by {
                reveal_strlit("(");
                reveal_strlit(")");
                reveal_strlit(")(");
                lemma_pattern_balanced(data, left.cursor, dialect, d);
                lemma_balanced_group(right.pattern);
                lemma_balanced_concat(seq!['('] + left.pattern + seq![')'], seq!['('] + right.pattern + seq![')']);
                assert(g.pattern =~= (seq!['('] + left.pattern + seq![')']) + (seq!['('] + right.pattern + seq![')']));
            }
        } else if shape == 5 {
            let right = generate_pattern(data, left.cursor, dialect, d);
            assert(balanced(g.pattern)) by {
                reveal_strlit("(");
                reveal_strlit(")");
                reveal_strlit("|");
                lemma_pattern_balanced(data, left.cursor, dialect, d);
                let bar = seq!['|'];
                lemma_balanced_flat(bar);
                lemma_balanced_concat(left.pattern, bar);
                lemma_balanced_concat(left.pattern + bar, right.pattern);
                lemma_balanced_group(left.pattern + bar + right.pattern);
                assert(g.pattern =~= seq!['('] + (left.pattern + bar + right.pattern) + seq![')']);
            }
        } else {
            assert(balanced(g.pattern)) by {
                reveal_strlit("(");
                reveal_strlit(")");
                let q = (byte_at(data, left.cursor) % 9) as nat;
                lemma_quantifier_reads(q, Seq::empty());
                lemma_balanced_flat(quantifier_pattern(q));
                lemma_balanced_concat(seq!['('] + left.pattern + seq![')'], quantifier_pattern(q));
                assert(g.pattern =~= (seq!['('] + left.pattern + seq![')']) + quantifier_pattern(q));
            }
        }
    }
}

/// Once the input has run out, every pattern is the atom `a` with the text `a`: the bytes
/// read there are 0, which pick an atom and then the first one.
pub proof fn lemma_exhausted_pattern(data: Seq<u8>, c: int, dialect: Dialect, depth: nat)
    requires
        c >= data.len(),
    ensures
        generate_pattern(data, c, dialect, depth).pattern == "a"@,
        generate_pattern(data, c, dialect, depth).witness == "a"@,
        generate_pattern(data, c, dialect, depth).cursor == c + if depth == 0 {
            1int
        } else {
            2int
        },
{
}

/// A counted group is the inner pattern in parentheses followed by the quantifier that the
/// byte after the inner pattern picks modulo 9, and its text is the inner text repeated:
/// `*` by the next byte modulo 3, `+` by one more, `?` by the next byte modulo 2, `{0}`,
/// `{1}` and `{2}` exactly so often without reading on, `{0,2}` by the next byte modulo 3,
/// `{1,2}` by one more than the next byte modulo 2, and `{2,}` by two more.
pub proof fn lemma_counted_group(data: Seq<u8>, c: int, dialect: Dialect, depth: nat)
    ensures
        ({
            let g = generate_pattern(data, c, dialect, depth);
            let inner = generate_pattern(data, c + 1, dialect, (depth - 1) as nat);
            let q = byte_at(data, inner.cursor) % 9;
            let b = byte_at(data, inner.cursor + 1) as nat;
            let group = "("@ + inner.pattern + ")"@;
            depth > 0 && byte_at(data, c) % 8 >= 6 ==> {
                &&& q == 0 ==> g.pattern == group + "*"@ && g.witness == repeat_seq(inner.witness, b % 3)
                &&& q == 1 ==> g.pattern == group + "+"@ && g.witness == repeat_seq(inner.witness, b % 3 + 1)
                &&& q == 2 ==> g.pattern == group + "?"@ && g.witness == repeat_seq(inner.witness, b % 2)
                &&& q == 3 ==> g.pattern == group + "{0}"@ && g.witness == repeat_seq(inner.witness, 0)
                &&& q == 4 ==> g.pattern == group + "{1}"@ && g.witness == repeat_seq(inner.witness, 1)
                &&& q == 5 ==> g.pattern == group + "{2}"@ && g.witness == repeat_seq(inner.witness, 2)
                &&& q == 6 ==> g.pattern == group + "{0,2}"@ && g.witness == repeat_seq(inner.witness, b % 3)
                &&& q == 7 ==> g.pattern == group + "{1,2}"@ && g.witness == repeat_seq(inner.witness, b % 2 + 1)
                &&& q == 8 ==> g.pattern == group + "{2,}"@ && g.witness == repeat_seq(inner.witness, b % 2 + 2)
                &&& g.cursor == inner.cursor + if 3 <= q <= 5 {
                    1int
                } else {
                    2int
                }
            }
        }),
{
}

/// An atom is picked by its byte modulo 11 in the shared dialect and modulo 14 in the native
/// one, from the list `a b 0 é 💕 \[ \. \\ [a-c] [0-2] [ab]`, followed in the native dialect
/// by `\d \w \s`; its text is the matching entry of `a b 0 é 💕 [ . \ a 2 b 0 _ newline`.
pub proof fn lemma_atoms(data: Seq<u8>, c: int, dialect: Dialect)
    ensures
        ({
            let g = generate_pattern(data, c, dialect, 0);
            let i = byte_at(data, c) as int % match dialect {
                Dialect::Shared => 11int,
                Dialect::Native => 14int,
            };
            let patterns = seq![
                "a"@, "b"@, "0"@, "\u{E9}"@, "\u{1F495}"@, "\\["@, "\\."@, "\\\\"@,
                "[a-c]"@, "[0-2]"@, "[ab]"@, "\\d"@, "\\w"@, "\\s"@,
            ];
            let texts = seq![
                "a"@, "b"@, "0"@, "\u{E9}"@, "\u{1F495}"@, "["@, "."@, "\\"@,
                "a"@, "2"@, "b"@, "0"@, "_"@, "\n"@,
            ];
            &&& g.pattern == patterns[i]
            &&& g.witness == texts[i]
            &&& g.cursor == c + 1
        }),
{
    reveal_strlit("\u{E9}");
    reveal_strlit("\u{e9}");
    reveal_strlit("\u{1F495}");
    reveal_strlit("\u{1f495}");
}

/// Above depth 0 the first byte picks the shape modulo 8: below 4 an atom at the next byte,
/// 4 the concatenation `(L)(R)` of two patterns with their texts joined, and 5 the
/// alternation `(L|R)` whose text is the left one when the byte after both is even and the
/// right one otherwise.
pub proof fn lemma_pattern_shapes(data: Seq<u8>, c: int, dialect: Dialect, depth: nat)
    requires
        depth > 0,
    ensures
        ({
            let g = generate_pattern(data, c, dialect, depth);
            let shape = byte_at(data, c) % 8;
            let left = generate_pattern(data, c + 1, dialect, (depth - 1) as nat);
            let right = generate_pattern(data, left.cursor, dialect, (depth - 1) as nat);
            &&& shape < 4 ==> g == generate_pattern(data, c + 1, dialect, 0)
            &&& shape == 4 ==> g.pattern == "("@ + left.pattern + ")"@ + "("@ + right.pattern + ")"@
                && g.witness == left.witness + right.witness && g.cursor == right.cursor
            &&& shape == 5 ==> g.pattern == "("@ + left.pattern + "|"@ + right.pattern + ")"@
                && g.witness == (if byte_at(data, right.cursor) % 2 == 0 {
                left.witness
            } else {
                right.witness
            }) && g.cursor == right.cursor + 1
        }),
{
    reveal_strlit(")(");
    reveal_strlit(")");
    reveal_strlit("(");
    let g = generate_pattern(data, c, dialect, depth);
    let left = generate_pattern(data, c + 1, dialect, (depth - 1) as nat);
    let right = generate_pattern(data, left.cursor, dialect, (depth - 1) as nat);
    if byte_at(data, c) % 8 == 4 {
        assert(")("@ =~= ")"@ + "("@);
        assert("("@ + left.pattern + ")("@ + right.pattern + ")"@ =~= "("@ + left.pattern + ")"@ + "("@
            + right.pattern + ")"@);
    }
}

/// `n` copies of an accepted text split into `n` accepted pieces.
pub proof fn lemma_repeat_seq_repeats(e: Expr, w: Seq<char>, n: nat)
    requires
        accepts(e, w),
    ensures
        repeats(e, n, repeat_seq(w, n)),
    decreases n,
{
    if n == 0 {
        lemma_repeats_zero(e, repeat_seq(w, 0));
    } else {
        let prev = repeat_seq(w, (n - 1) as nat);
        let t = repeat_seq(w, n);
        lemma_repeat_seq_repeats(e, w, (n - 1) as nat);
        assert(t.take(prev.len() as int) =~= prev);
        assert(t.skip(prev.len() as int) =~= w);
        lemma_repeats_extend(e, (n - 1) as nat, t, prev.len() as int);
    }
}

/// The witness of a generated pattern is in the language of the expression the pattern
/// denotes.
pub proof fn lemma_pattern_witness(data: Seq<u8>, c: int, dialect: Dialect, depth: nat)
    ensures
        accepts(generate_pattern(data, c, dialect, depth).expr, generate_pattern(data, c, dialect, depth).witness),
    decreases depth,
{
    let g = generate_pattern(data, c, dialect, depth);
    if depth == 0 || byte_at(data, c) % 8 <= 3 {
        let at = if depth == 0 { c } else { c + 1 };
        lemma_atom_accepts((byte_at(data, at) as nat) % atom_count(dialect));
    } else {
        let shape = byte_at(data, c) % 8;
        let d = (depth - 1) as nat;
        let left = generate_pattern(data, c + 1, dialect, d);
        lemma_pattern_witness(data, c + 1, dialect, d);
        if shape == 4 {
            let right = generate_pattern(data, left.cursor, dialect, d);
            lemma_pattern_witness(data, left.cursor, dialect, d);
            let k = left.witness.len() as int;
            assert(g.witness.take(k) =~= left.witness);
            assert(g.witness.skip(k) =~= right.witness);
            lemma_accepts_concat(left.expr, right.expr, g.witness);
        } else if shape == 5 {
            lemma_pattern_witness(data, left.cursor, dialect, d);
        } else {
            let q = (byte_at(data, left.cursor) % 9) as nat;
            let reps = quantifier_repeats(data, left.cursor + 1, q);
            lemma_repeat_seq_repeats(left.expr, left.witness, reps);
            assert(count_allows(quantifier_count(q), reps));
            lemma_accepts_count(left.expr, quantifier_count(q), g.witness);
        }
    }
}

/// Generation depends only on the bytes met from the cursor on: two readers that meet the
/// same bytes give the same pattern, witness and expression and move on by the same number
/// of bytes.
#[verifier::rlimit(60)]
pub proof fn lemma_pattern_same_stream(d1: Seq<u8>, c1: int, d2: Seq<u8>, c2: int, dialect: Dialect, depth: nat)
    requires
        same_from(d1, c1, d2, c2),
    ensures
        ({
            let g1 = generate_pattern(d1, c1, dialect, depth);
            let g2 = generate_pattern(d2, c2, dialect, depth);
            &&& g1.pattern == g2.pattern
            &&& g1.witness == g2.witness
            &&& g1.expr == g2.expr
            &&& g1.cursor - c1 == g2.cursor - c2
        }),
    decreases depth,
{
    lemma_same_from_shift(d1, c1, d2, c2, 0);
    lemma_same_from_shift(d1, c1, d2, c2, 1);
    if depth > 0 {
        let shape = byte_at(d1, c1) % 8;
        let d = (depth - 1) as nat;
        if shape >= 4 {
            lemma_pattern_same_stream(d1, c1 + 1, d2, c2 + 1, dialect, d);
            lemma_pattern_advances(d1, c1 + 1, dialect, d);
            let left1 = generate_pattern(d1, c1 + 1, dialect, d);
            let left2 = generate_pattern(d2, c2 + 1, dialect, d);
            lemma_same_from_shift(d1, c1, d2, c2, left1.cursor - c1);
            lemma_same_from_shift(d1, c1, d2, c2, left1.cursor + 1 - c1);
            if shape <= 5 {
                lemma_pattern_same_stream(d1, left1.cursor, d2, left2.cursor, dialect, d);
                lemma_pattern_advances(d1, left1.cursor, dialect, d);
                let right1 = generate_pattern(d1, left1.cursor, dialect, d);
                lemma_same_from_shift(d1, c1, d2, c2, right1.cursor - c1);
            }
        }
    }
}

/// Whether two expressions have the same concatenations, alternations and counts, and differ
/// at most in their leaves.
pub open spec fn same_shape(x: Expr, y: Expr) -> bool
    decreases x,
{
    match x {
        Expr::Concat(a, b) => match y {
            Expr::Concat(c, d) => same_shape(*a, *c) && same_shape(*b, *d),
            _ => false,
        },
        Expr::Or(a, b) => match y {
            Expr::Or(c, d) => same_shape(*a, *c) && same_shape(*b, *d),
            _ => false,
        },
        Expr::Count(a, n) => match y {
            Expr::Count(c, m) => n == m && same_shape(*a, *c),
            _ => false,
        },
        _ => !(y is Concat || y is Or || y is Count),
    }
}

/// The two dialects read the same bytes the same way: from the same input they produce
/// patterns whose text reads with the same groups, alternations and quantifiers, differing
/// only in atoms, and stop at the same position.
pub proof fn lemma_dialects_agree(data: Seq<u8>, c: int, depth: nat)
    ensures
        generate_pattern(data, c, Dialect::Shared, depth).cursor == generate_pattern(data, c, Dialect::Native, depth).cursor,
        same_shape(generate_pattern(data, c, Dialect::Shared, depth).expr, generate_pattern(data, c, Dialect::Native, depth).expr),
        same_shape(
            read_pattern(generate_pattern(data, c, Dialect::Shared, depth).pattern)->0,
            read_pattern(generate_pattern(data, c, Dialect::Native, depth).pattern)->0,
        ),
    decreases depth,
{
    lemma_pattern_reads(data, c, Dialect::Shared, depth);
    lemma_pattern_reads(data, c, Dialect::Native, depth);
    let shared = generate_pattern(data, c, Dialect::Shared, depth);
    let native = generate_pattern(data, c, Dialect::Native, depth);
    if depth == 0 || byte_at(data, c) % 8 <= 3 {
        let at = if depth == 0 { c } else { c + 1 };
        let i = (byte_at(data, at) as nat) % 11;
        let j = (byte_at(data, at) as nat) % 14;
        assert(i < 11 && j < 14);
    } else {
        let shape = byte_at(data, c) % 8;
        let d = (depth - 1) as nat;
        lemma_dialects_agree(data, c + 1, d);
        let left = generate_pattern(data, c + 1, Dialect::Shared, d);
        if shape <= 5 {
            lemma_dialects_agree(data, left.cursor, d);
        }
    }
}

/// The syntax of atom `index`, with a text that it matches.
fn atom_strings(index: usize) -> (strings: (&'static str, &'static str))
    requires
        index < 14,
    ensures
        strings.0@ == atom_pattern(index as nat),
        strings.1@ == atom_text(index as nat),
{
    match index {
        0 => ("a", "a"),
        1 => ("b", "b"),
        2 => ("0", "0"),
        3 => ("\u{e9}", "\u{e9}"),
        4 => ("\u{1f495}", "\u{1f495}"),
        5 => ("\\[", "["),
        6 => ("\\.", "."),
        7 => ("\\\\", "\\"),
        8 => ("[a-c]", "a"),
        9 => ("[0-2]", "2"),
        10 => ("[ab]", "b"),
        11 => ("\\d", "0"),
        12 => ("\\w", "_"),
        _ => ("\\s", "\n"),
    }
}

/// Reads one atom: a literal, an escape or a class, with a text that it matches.
fn atom(bytes: &mut Bytes<'_>, dialect: Dialect) -> (generated: (String, String))
    requires
        old(bytes).cursor() < usize::MAX,
    ensures
        ({
            let g = generate_atom(old(bytes).stream(), old(bytes).cursor() as int, dialect);
            &&& generated.0@ == g.pattern
            &&& generated.1@ == g.witness
            &&& final(bytes).cursor() == g.cursor
        }),
        final(bytes).stream() == old(bytes).stream(),
{
    let choices: usize = match dialect {
        Dialect::Shared => 11,
        Dialect::Native => 14,
    };
    let choice = (bytes.next() as usize) % choices;
    let (pattern, text) = atom_strings(choice);
    (String::from_str(pattern), String::from_str(text))
}

/// The syntax of quantifier `q`.
fn quantifier_str(q: u8) -> (s: &'static str)
    requires
        q < 9,
    ensures
        s@ == quantifier_pattern(q as nat),
{
    match q {
        0 => "*",
        1 => "+",
        2 => "?",
        3 => "{0}",
        4 => "{1}",
        5 => "{2}",
        6 => "{0,2}",
        7 => "{1,2}",
        _ => "{2,}",
    }
}

/// Generates a valid pattern and a text in its language: the pattern text reads as an
/// expression that accepts the text.
pub fn pattern(bytes: &mut Bytes<'_>, dialect: Dialect, depth: u8) -> (generated: (String, String))
    requires
        generate_pattern(old(bytes).stream(), old(bytes).cursor() as int, dialect, depth as nat).cursor
            <= usize::MAX,
    ensures
        ({
            let g = generate_pattern(old(bytes).stream(), old(bytes).cursor() as int, dialect, depth as nat);
            &&& generated.0@ == g.pattern
            &&& generated.1@ == g.witness
            &&& final(bytes).cursor() == g.cursor
            &&& read_pattern(generated.0@) == Some(g.expr)
        }),
        read_pattern(generated.0@) matches Some(e) && accepts(e, generated.1@),
        balanced(generated.0@),
        final(bytes).stream() == old(bytes).stream(),
    decreases depth,
{
    let ghost data = bytes.stream();
    let ghost c = bytes.cursor() as int;
    proof {
        lemma_pattern_advances(data, c, dialect, depth as nat);
        lemma_pattern_witness(data, c, dialect, depth as nat);
        lemma_pattern_reads(data, c, dialect, depth as nat);
        lemma_pattern_balanced(data, c, dialect, depth as nat);
    }
    if depth == 0 {
        return atom(bytes, dialect);
    }
    let shape = bytes.pick(8);
    if shape <= 3 {
        atom(bytes, dialect)
    } else if shape == 4 {
        proof {
            lemma_pattern_advances(data, c + 1, dialect, (depth - 1) as nat);
            let left = generate_pattern(data, c + 1, dialect, (depth - 1) as nat);
            lemma_pattern_advances(data, left.cursor, dialect, (depth - 1) as nat);
        }
        let (left, left_text) = pattern(bytes, dialect, depth - 1);
        let (right, right_text) = pattern(bytes, dialect, depth - 1);
        let mut out = String::from_str("(");
        out.append(left.as_str());
        out.append(")(");
        out.append(right.as_str());
        out.append(")");
        let text = left_text.concat(right_text.as_str());
        (out, text)
    } else if shape == 5 {
        proof {
            lemma_pattern_advances(data, c + 1, dialect, (depth - 1) as nat);
            let left = generate_pattern(data, c + 1, dialect, (depth - 1) as nat);
            lemma_pattern_advances(data, left.cursor, dialect, (depth - 1) as nat);
        }
        let (left, left_text) = pattern(bytes, dialect, depth - 1);
        let (right, right_text) = pattern(bytes, dialect, depth - 1);
        let text = if bytes.pick(2) == 0 {
            left_text
        } else {
            right_text
        };
        let mut out = String::from_str("(");
        out.append(left.as_str());
        out.append("|");
        out.append(right.as_str());
        out.append(")");
        (out, text)
    } else {
        proof {
            lemma_pattern_advances(data, c + 1, dialect, (depth - 1) as nat);
        }
        let (inner, inner_text) = pattern(bytes, dialect, depth - 1);
        let q = bytes.pick(9);
        let repeats: usize = match q {
            0 => bytes.pick(3) as usize,
            1 => bytes.pick(3) as usize + 1,
            2 => bytes.pick(2) as usize,
            3 => 0,
            4 => 1,
            5 => 2,
            6 => bytes.pick(3) as usize,
            7 => bytes.pick(2) as usize + 1,
            _ => bytes.pick(2) as usize + 2,
        };
        let mut out = String::from_str("(");
        out.append(inner.as_str());
        out.append(")");
        out.append(quantifier_str(q));
        let text = repeat(inner_text.as_str(), repeats);
        (out, text)
    }
}

} // verus!
