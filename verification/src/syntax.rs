//! How pattern text is read as an expression.
//!
//! The grammar is the usual one for regular expressions: alternatives separated by `|`,
//! each a sequence of one or more pieces; a piece is a literal, an escape, a class or a
//! parenthesised group, optionally followed by `*`, `+`, `?`, `{n}`, `{n,}` or `{n,m}`.
//! Sequences and alternatives group to the left.
use vstd::prelude::*;

use crate::regex::{CharRange, Count, Expr};

verus! {

/// Characters that stand for themselves outside a class only when escaped.
pub open spec fn is_meta(c: char) -> bool {
    ||| c == '[' || c == ']' || c == '(' || c == ')' || c == '{' || c == '}'
    ||| c == '?' || c == '*' || c == '+' || c == '|' || c == '\\' || c == '.'
}

/// Whether `c` stands for itself outside a class: no metacharacter, `-` or `,`.
pub open spec fn is_plain(c: char) -> bool {
    !is_meta(c) && c != '-' && c != ','
}

/// Characters that stand for themselves inside a class only when escaped.
pub open spec fn is_class_meta(c: char) -> bool {
    c == '[' || c == ']' || c == '-' || c == '\\'
}

/// Whether `c` stands for itself inside a class.
pub open spec fn is_class_plain(c: char) -> bool {
    &&& !is_class_meta(c)
    &&& c != '(' && c != ')' && c != '{' && c != '}' && c != '|' && c != '*' && c != '?' && c != ','
}

/// The class that an escape letter stands for: `\d` the digits, `\w` the word characters
/// and `\s` the white space of space, tab, line feed and carriage return.
pub open spec fn class_escape(c: char) -> Option<Seq<CharRange>> {
    if c == 'd' {
        Some(seq![CharRange::Range('0', '9')])
    } else if c == 'w' {
        Some(
            seq![
                CharRange::Range('a', 'z'),
                CharRange::Range('A', 'Z'),
                CharRange::Range('0', '9'),
                CharRange::Single('_'),
            ],
        )
    } else if c == 's' {
        Some(
            seq![
                CharRange::Single(' '),
                CharRange::Single('\t'),
                CharRange::Single('\n'),
                CharRange::Single('\r'),
            ],
        )
    } else {
        None
    }
}

/// Whether `c` is an ASCII decimal digit.
pub open spec fn is_digit(c: char) -> bool {
    '0' <= c && c <= '9'
}

/// How many digits `s` starts with.
pub open spec fn digit_run(s: Seq<char>) -> nat
    decreases s.len(),
{
    if s.len() > 0 && is_digit(s[0]) {
        1 + digit_run(s.skip(1))
    } else {
        0
    }
}

/// The decimal value of the first `k` characters of `s`.
pub open spec fn decimal(s: Seq<char>, k: nat) -> nat
    decreases k,
{
    if k == 0 {
        0
    } else {
        decimal(s, (k - 1) as nat) * 10 + (s[k - 1] as int - '0' as int) as nat
    }
}

/// A number: all the leading digits, at least one, with a value that fits a `usize`.
pub open spec fn read_number(s: Seq<char>) -> Option<(usize, Seq<char>)> {
    let k = digit_run(s);
    if k == 0 || decimal(s, k) > usize::MAX {
        None
    } else {
        Some((decimal(s, k) as usize, s.skip(k as int)))
    }
}

/// A repetition suffix: `*` is `{0,}`, `+` is `{1,}` and `?` is `{0,1}`.
pub open spec fn read_quantifier(s: Seq<char>) -> Option<(Count, Seq<char>)> {
    if s.len() == 0 {
        None
    } else if s[0] == '*' {
        Some((Count::AtLeast(0), s.skip(1)))
    } else if s[0] == '+' {
        Some((Count::AtLeast(1), s.skip(1)))
    } else if s[0] == '?' {
        Some((Count::Range(0, 1), s.skip(1)))
    } else if s[0] == '{' {
        match read_number(s.skip(1)) {
            Some((n, r)) => if r.len() > 0 && r[0] == '}' {
                Some((Count::Exact(n), r.skip(1)))
            } else if r.len() > 1 && r[0] == ',' && r[1] == '}' {
                Some((Count::AtLeast(n), r.skip(2)))
            } else if r.len() > 0 && r[0] == ',' {
                match read_number(r.skip(1)) {
                    Some((m, r2)) => if r2.len() > 0 && r2[0] == '}' {
                        Some((Count::Range(n, m), r2.skip(1)))
                    } else {
                        None
                    },
                    None => None,
                }
            } else {
                None
            },
            None => None,
        }
    } else {
        None
    }
}

/// One character of a class, plain or escaped.
pub open spec fn read_class_char(s: Seq<char>) -> Option<(char, Seq<char>)> {
    if s.len() == 0 {
        None
    } else if s[0] == '\\' {
        if s.len() > 1 && is_class_meta(s[1]) {
            Some((s[1], s.skip(2)))
        } else {
            None
        }
    } else if is_class_plain(s[0]) {
        Some((s[0], s.skip(1)))
    } else {
        None
    }
}

/// One item of a class: a range `x-y`, or else a single character.
pub open spec fn read_class_range(s: Seq<char>) -> Option<(CharRange, Seq<char>)> {
    match read_class_char(s) {
        Some((a, r)) => if r.len() > 0 && r[0] == '-' {
            match read_class_char(r.skip(1)) {
                Some((b, r2)) => Some((CharRange::Range(a, b), r2)),
                None => Some((CharRange::Single(a), r)),
            }
        } else {
            Some((CharRange::Single(a), r))
        },
        None => None,
    }
}

/// As many class items as can be read.
pub open spec fn read_class_ranges(s: Seq<char>) -> (Seq<CharRange>, Seq<char>)
    decreases s.len(),
{
    match read_class_range(s) {
        Some((range, r)) => if r.len() < s.len() {
            let (rest, r2) = read_class_ranges(r);
            (seq![range] + rest, r2)
        } else {
            (seq![range], r)
        },
        None => (Seq::empty(), s),
    }
}

/// The concatenation of the parts, grouped to the left.
pub open spec fn concat_all(parts: Seq<Expr>) -> Expr
    decreases parts.len(),
{
    if parts.len() == 0 {
        Expr::Epsilon
    } else if parts.len() == 1 {
        parts[0]
    } else {
        Expr::Concat(Box::new(concat_all(parts.drop_last())), Box::new(parts.last()))
    }
}

/// The alternation of the alternatives, grouped to the left.
pub open spec fn alternate_all(alternatives: Seq<Expr>) -> Expr
    decreases alternatives.len(),
{
    if alternatives.len() == 0 {
        Expr::Empty
    } else if alternatives.len() == 1 {
        alternatives[0]
    } else {
        Expr::Or(Box::new(alternate_all(alternatives.drop_last())), Box::new(alternatives.last()))
    }
}

/// Alternatives separated by `|`, each a sequence read by [`read_sequence`].
pub open spec fn read_alternatives(s: Seq<char>) -> Option<(Seq<Expr>, Seq<char>)>
    decreases s.len(), 3int,
{
    match read_sequence(s) {
        Some((parts, r)) => if r.len() > 0 && r[0] == '|' && r.len() <= s.len() {
            match read_alternatives(r.skip(1)) {
                Some((rest, r2)) => Some((seq![concat_all(parts)] + rest, r2)),
                None => None,
            }
        } else {
            Some((seq![concat_all(parts)], r))
        },
        None => None,
    }
}

/// One or more pieces, as many as can be read.
pub open spec fn read_sequence(s: Seq<char>) -> Option<(Seq<Expr>, Seq<char>)>
    decreases s.len(), 2int,
{
    match read_piece(s) {
        Some((p, r)) => if r.len() < s.len() {
            match read_sequence(r) {
                Some((rest, r2)) => Some((seq![p] + rest, r2)),
                None => Some((seq![p], r)),
            }
        } else {
            Some((seq![p], r))
        },
        None => None,
    }
}

/// A primary with an optional repetition suffix.
pub open spec fn read_piece(s: Seq<char>) -> Option<(Expr, Seq<char>)>
    decreases s.len(), 1int,
{
    match read_primary(s) {
        Some((e, r)) => match read_quantifier(r) {
            Some((count, r2)) => Some((Expr::Count(Box::new(e), count), r2)),
            None => Some((e, r)),
        },
        None => None,
    }
}

/// A group, a class, an escape or a plain character.
pub open spec fn read_primary(s: Seq<char>) -> Option<(Expr, Seq<char>)>
    decreases s.len(), 0int,
{
    if s.len() == 0 {
        None
    } else if s[0] == '(' {
        match read_alternatives(s.skip(1)) {
            Some((alternatives, r)) => if r.len() > 0 && r[0] == ')' {
                Some((alternate_all(alternatives), r.skip(1)))
            } else {
                None
            },
            None => None,
        }
    } else if s[0] == '[' {
        let (ranges, r) = read_class_ranges(s.skip(1));
        if r.len() > 0 && r[0] == ']' {
            Some((Expr::Class(ranges), r.skip(1)))
        } else {
            None
        }
    } else if s[0] == '\\' {
        if s.len() < 2 {
            None
        } else if class_escape(s[1]) is Some {
            Some((Expr::Class(class_escape(s[1])->0), s.skip(2)))
        } else if is_meta(s[1]) {
            Some((Expr::Literal(s[1]), s.skip(2)))
        } else {
            None
        }
    } else if is_plain(s[0]) {
        Some((Expr::Literal(s[0]), s.skip(1)))
    } else {
        None
    }
}

/// The expression that the whole of `s` stands for, if `s` is a pattern.
pub open spec fn read_pattern(s: Seq<char>) -> Option<Expr> {
    match read_alternatives(s) {
        Some((alternatives, r)) => if r.len() == 0 {
            Some(alternate_all(alternatives))
        } else {
            None
        },
        None => None,
    }
}

/// Where reading stops: at the end, at a closing parenthesis or at a bar.
pub open spec fn ends_piece(r: Seq<char>) -> bool {
    r.len() == 0 || r[0] == ')' || r[0] == '|'
}

/// Nothing is read where reading stops.
pub proof fn lemma_nothing_at_end(r: Seq<char>)
    requires
        ends_piece(r),
    ensures
        read_quantifier(r) is None,
        read_primary(r) is None,
        read_piece(r) is None,
        read_sequence(r) is None,
{
}

/// A primary followed by the end of a sequence is a sequence of one piece.
pub proof fn lemma_lone_piece(s: Seq<char>, e: Expr, r: Seq<char>)
    requires
        read_primary(s) == Some((e, r)),
        r.len() < s.len(),
        ends_piece(r),
    ensures
        read_sequence(s) == Some((seq![e], r)),
{
    lemma_nothing_at_end(r);
    assert(read_piece(s) == Some((e, r)));
}

/// A sequence followed by the end of a group or of the text is the only alternative.
pub proof fn lemma_lone_alternative(s: Seq<char>, parts: Seq<Expr>, r: Seq<char>)
    requires
        read_sequence(s) == Some((parts, r)),
        r.len() == 0 || r[0] == ')',
    ensures
        read_alternatives(s) == Some((seq![concat_all(parts)], r)),
{
}

/// A plain character stands for itself.
pub proof fn lemma_read_plain(c: char, r: Seq<char>)
    requires
        is_plain(c),
    ensures
        read_primary(seq![c] + r) == Some((Expr::Literal(c), r)),
{
    let s = seq![c] + r;
    assert(s[0] == c);
    assert(s.skip(1) =~= r);
}

/// An escaped metacharacter stands for itself.
pub proof fn lemma_read_escaped(c: char, r: Seq<char>)
    requires
        is_meta(c),
        class_escape(c) is None,
    ensures
        read_primary(seq!['\\', c] + r) == Some((Expr::Literal(c), r)),
{
    let s = seq!['\\', c] + r;
    assert(s[0] == '\\' && s[1] == c);
    assert(s.skip(2) =~= r);
}

/// A class escape stands for its class.
pub proof fn lemma_read_class_escape(c: char, r: Seq<char>)
    requires
        class_escape(c) is Some,
    ensures
        read_primary(seq!['\\', c] + r) == Some((Expr::Class(class_escape(c)->0), r)),
{
    let s = seq!['\\', c] + r;
    assert(s[0] == '\\' && s[1] == c);
    assert(s.skip(2) =~= r);
}

/// Nothing more of a class is read at its closing bracket.
proof fn lemma_class_closes(r: Seq<char>)
    requires
        r.len() > 0,
        r[0] == ']',
    ensures
        read_class_ranges(r) == (Seq::<CharRange>::empty(), r),
{
}

/// `[a-b]` is the class of one range.
pub proof fn lemma_read_class_range(a: char, b: char, r: Seq<char>)
    requires
        is_class_plain(a),
        is_class_plain(b),
    ensures
        read_primary(seq!['[', a, '-', b, ']'] + r) == Some((Expr::Class(seq![CharRange::Range(a, b)]), r)),
{
    let s = seq!['[', a, '-', b, ']'] + r;
    let t = s.skip(1);
    assert(t[0] == a && t[1] == '-' && t[2] == b);
    assert(t.skip(1).skip(1) =~= t.skip(2));
    assert(read_class_char(t) == Some((a, t.skip(1))));
    assert(read_class_char(t.skip(2)) == Some((b, t.skip(3)))) by {
        assert(t.skip(2).skip(1) =~= t.skip(3));
    }
    assert(read_class_range(t) == Some((CharRange::Range(a, b), t.skip(3))));
    let u = t.skip(3);
    assert(u[0] == ']');
    lemma_class_closes(u);
    assert(read_class_ranges(t) == (seq![CharRange::Range(a, b)], u)) by {
        assert(seq![CharRange::Range(a, b)] + Seq::<CharRange>::empty() =~= seq![CharRange::Range(a, b)]);
    }
    assert(u.skip(1) =~= r);
}

/// `[ab]` is the class of two single characters.
pub proof fn lemma_read_class_pair(a: char, b: char, r: Seq<char>)
    requires
        is_class_plain(a),
        is_class_plain(b),
    ensures
        read_primary(seq!['[', a, b, ']'] + r) == Some(
            (Expr::Class(seq![CharRange::Single(a), CharRange::Single(b)]), r),
        ),
{
    let s = seq!['[', a, b, ']'] + r;
    let t = s.skip(1);
    let u = t.skip(1);
    let v = u.skip(1);
    assert(t[0] == a && u[0] == b && v[0] == ']');
    assert(read_class_range(t) == Some((CharRange::Single(a), u)));
    assert(read_class_range(u) == Some((CharRange::Single(b), v)));
    lemma_class_closes(v);
    assert(read_class_ranges(u) == (seq![CharRange::Single(b)], v)) by {
        assert(seq![CharRange::Single(b)] + Seq::<CharRange>::empty() =~= seq![CharRange::Single(b)]);
    }
    assert(read_class_ranges(t) == (seq![CharRange::Single(a), CharRange::Single(b)], v)) by {
        assert(seq![CharRange::Single(a)] + seq![CharRange::Single(b)] =~= seq![
            CharRange::Single(a),
            CharRange::Single(b),
        ]);
    }
    assert(v.skip(1) =~= r);
}

/// A single digit followed by a non-digit is the number it spells.
pub proof fn lemma_read_digit(d: char, r: Seq<char>)
    requires
        is_digit(d),
        r.len() > 0,
        !is_digit(r[0]),
    ensures
        read_number(seq![d] + r) == Some((digit_value(d), r)),
{
    let s = seq![d] + r;
    assert(s[0] == d);
    assert(s.skip(1) =~= r);
    assert(digit_run(r) == 0);
    assert(digit_run(s) == 1);
    assert(decimal(s, 0) == 0);
    assert(decimal(s, 1) == (d as int - '0' as int) as nat);
}

/// The numeric value of a digit.
pub open spec fn digit_value(d: char) -> usize {
    (d as int - '0' as int) as usize
}

/// `{d}` asks for exactly `d` repetitions.
pub proof fn lemma_read_exact(d: char, r: Seq<char>)
    requires
        is_digit(d),
    ensures
        read_quantifier(seq!['{', d, '}'] + r) == Some((Count::Exact(digit_value(d)), r)),
{
    let s = seq!['{', d, '}'] + r;
    let rest = seq!['}'] + r;
    assert(s.skip(1) =~= seq![d] + rest);
    lemma_read_digit(d, rest);
    assert(rest.skip(1) =~= r);
}

/// `{d,}` asks for at least `d` repetitions.
pub proof fn lemma_read_at_least(d: char, r: Seq<char>)
    requires
        is_digit(d),
    ensures
        read_quantifier(seq!['{', d, ',', '}'] + r) == Some((Count::AtLeast(digit_value(d)), r)),
{
    let s = seq!['{', d, ',', '}'] + r;
    let rest = seq![',', '}'] + r;
    assert(s.skip(1) =~= seq![d] + rest);
    lemma_read_digit(d, rest);
    assert(rest.skip(2) =~= r);
}

/// `{d,e}` asks for between `d` and `e` repetitions.
pub proof fn lemma_read_between(d: char, e: char, r: Seq<char>)
    requires
        is_digit(d),
        is_digit(e),
    ensures
        read_quantifier(seq!['{', d, ',', e, '}'] + r) == Some(
            (Count::Range(digit_value(d), digit_value(e)), r),
        ),
{
    let s = seq!['{', d, ',', e, '}'] + r;
    let rest = seq![',', e, '}'] + r;
    assert(s.skip(1) =~= seq![d] + rest);
    lemma_read_digit(d, rest);
    let last = seq!['}'] + r;
    assert(rest.skip(1) =~= seq![e] + last);
    lemma_read_digit(e, last);
    assert(last.skip(1) =~= r);
}

/// A one-character suffix `*`, `+` or `?`.
pub proof fn lemma_read_symbol(c: char, r: Seq<char>)
    requires
        c == '*' || c == '+' || c == '?',
    ensures
        read_quantifier(seq![c] + r) == Some(
            (
                if c == '*' {
                    Count::AtLeast(0)
                } else if c == '+' {
                    Count::AtLeast(1)
                } else {
                    Count::Range(0, 1)
                },
                r,
            ),
        ),
{
    let s = seq![c] + r;
    assert(s[0] == c);
    assert(s.skip(1) =~= r);
}

/// `(X)(Y)` is the concatenation of what `X` and `Y` read as, when each reads as one
/// alternative.
pub proof fn lemma_read_concat_groups(x: Seq<char>, ex: Expr, y: Seq<char>, ey: Expr, r: Seq<char>)
    requires
        ends_piece(r),
        read_alternatives(x + (seq![')', '('] + y + seq![')'] + r)) == Some(
            (seq![ex], seq![')', '('] + y + seq![')'] + r),
        ),
        read_alternatives(y + (seq![')'] + r)) == Some((seq![ey], seq![')'] + r)),
    ensures
        read_sequence(seq!['('] + x + seq![')', '('] + y + seq![')'] + r) == Some((seq![ex, ey], r)),
        concat_all(seq![ex, ey]) == Expr::Concat(Box::new(ex), Box::new(ey)),
{
    let s = seq!['('] + x + seq![')', '('] + y + seq![')'] + r;
    let after_x = seq![')', '('] + y + seq![')'] + r;
    let after_y = seq![')'] + r;
    let second = seq!['('] + y + after_y;
    assert(s[0] == '(');
    assert(s.skip(1) =~= x + after_x);
    assert(after_x[0] == ')');
    assert(after_x.skip(1) =~= second);
    assert(alternate_all(seq![ex]) == ex);
    assert(read_primary(s) == Some((ex, second)));
    assert(second[0] == '(');
    assert(read_quantifier(second) is None);
    assert(read_piece(s) == Some((ex, second)));
    assert(second.skip(1) =~= y + after_y);
    assert(after_y[0] == ')');
    assert(after_y.skip(1) =~= r);
    assert(alternate_all(seq![ey]) == ey);
    assert(read_primary(second) == Some((ey, r)));
    lemma_lone_piece(second, ey, r);
    assert(seq![ex] + seq![ey] =~= seq![ex, ey]);
    assert(seq![ex, ey].drop_last() =~= seq![ex]);
    assert(concat_all(seq![ex]) == ex);
    assert(seq![ex, ey].last() == ey);
}

/// `(X|Y)` is the alternation of what `X` and `Y` read as, when each reads as one sequence.
pub proof fn lemma_read_or_group(
    x: Seq<char>,
    px: Seq<Expr>,
    y: Seq<char>,
    ey: Expr,
    r: Seq<char>,
)
    requires
        ends_piece(r),
        read_sequence(x + (seq!['|'] + y + seq![')'] + r)) == Some((px, seq!['|'] + y + seq![')'] + r)),
        read_alternatives(y + (seq![')'] + r)) == Some((seq![ey], seq![')'] + r)),
    ensures
        read_sequence(seq!['('] + x + seq!['|'] + y + seq![')'] + r) == Some(
            (seq![Expr::Or(Box::new(concat_all(px)), Box::new(ey))], r),
        ),
{
    let s = seq!['('] + x + seq!['|'] + y + seq![')'] + r;
    let after_x = seq!['|'] + y + seq![')'] + r;
    let after_y = seq![')'] + r;
    let ex = concat_all(px);
    let e = Expr::Or(Box::new(ex), Box::new(ey));
    assert(s[0] == '(');
    assert(s.skip(1) =~= x + after_x);
    assert(after_x[0] == '|');
    assert(after_x.skip(1) =~= y + after_y);
    assert(read_alternatives(x + after_x) == Some((seq![ex] + seq![ey], after_y)));
    assert(seq![ex] + seq![ey] =~= seq![ex, ey]);
    assert(seq![ex, ey].drop_last() =~= seq![ex]);
    assert(alternate_all(seq![ex]) == ex);
    assert(seq![ex, ey].last() == ey);
    assert(alternate_all(seq![ex, ey]) == e);
    assert(after_y.skip(1) =~= r);
    assert(read_primary(s) == Some((e, r)));
    lemma_lone_piece(s, e, r);
}

/// `(X)q` repeats what `X` reads as by the count that `q` reads as.
pub proof fn lemma_read_counted_group(x: Seq<char>, ex: Expr, q: Seq<char>, count: Count, r: Seq<char>)
    requires
        ends_piece(r),
        read_alternatives(x + (seq![')'] + q + r)) == Some((seq![ex], seq![')'] + q + r)),
        read_quantifier(q + r) == Some((count, r)),
    ensures
        read_sequence(seq!['('] + x + seq![')'] + q + r) == Some(
            (seq![Expr::Count(Box::new(ex), count)], r),
        ),
{
    let s = seq!['('] + x + seq![')'] + q + r;
    let after_x = seq![')'] + q + r;
    let e = Expr::Count(Box::new(ex), count);
    assert(s[0] == '(');
    assert(s.skip(1) =~= x + after_x);
    assert(after_x[0] == ')');
    assert(after_x.skip(1) =~= q + r);
    assert(alternate_all(seq![ex]) == ex);
    assert(read_primary(s) == Some((ex, q + r)));
    assert(read_piece(s) == Some((e, r)));
    lemma_nothing_at_end(r);
}

/// How many more `(` than `)` the text holds.
pub open spec fn nesting(s: Seq<char>) -> int
    decreases s.len(),
{
    if s.len() == 0 {
        0
    } else {
        nesting(s.drop_last()) + if s.last() == '(' {
            1int
        } else if s.last() == ')' {
            -1int
        } else {
            0int
        }
    }
}

/// Whether the parentheses of the text are balanced: as many close as open, and no prefix
/// closes more than it opened.
pub open spec fn balanced(s: Seq<char>) -> bool {
    &&& nesting(s) == 0
    &&& forall|k: int| 0 <= k <= s.len() ==> nesting(#[trigger] s.take(k)) >= 0
}

/// Nesting adds up over concatenation.
pub proof fn lemma_nesting_concat(a: Seq<char>, b: Seq<char>)
    ensures
        nesting(a + b) == nesting(a) + nesting(b),
    decreases b.len(),
{
    if b.len() == 0 {
        assert(a + b =~= a);
    } else {
        assert((a + b).drop_last() =~= a + b.drop_last());
        assert((a + b).last() == b.last());
        lemma_nesting_concat(a, b.drop_last());
    }
}

/// The nesting of a prefix of a concatenation.
proof fn lemma_nesting_prefix(a: Seq<char>, b: Seq<char>, k: int)
    requires
        0 <= k <= a.len() + b.len(),
    ensures
        nesting((a + b).take(k)) == if k <= a.len() {
            nesting(a.take(k))
        } else {
            nesting(a) + nesting(b.take(k - a.len()))
        },
{
    if k <= a.len() {
        assert((a + b).take(k) =~= a.take(k));
    } else {
        assert((a + b).take(k) =~= a + b.take(k - a.len()));
        lemma_nesting_concat(a, b.take(k - a.len()));
    }
}

/// Balanced texts stay balanced side by side.
pub proof fn lemma_balanced_concat(a: Seq<char>, b: Seq<char>)
    requires
        balanced(a),
        balanced(b),
    ensures
        balanced(a + b),
{
    lemma_nesting_concat(a, b);
    assert forall|k: int| 0 <= k <= (a + b).len() implies nesting(#[trigger] (a + b).take(k)) >= 0 by {
        lemma_nesting_prefix(a, b, k);
        if k > a.len() {
            assert(a.take(a.len() as int) =~= a);
            assert(nesting(b.take(k - a.len())) >= 0);
        }
    }
}

/// A balanced text in parentheses is balanced.
pub proof fn lemma_balanced_group(x: Seq<char>)
    requires
        balanced(x),
    ensures
        balanced(seq!['('] + x + seq![')']),
{
    let open = seq!['('] + x;
    let close = seq![')'];
    lemma_nesting_concat(seq!['('], x);
    lemma_nesting_concat(open, close);
    assert(nesting(Seq::<char>::empty()) == 0);
    assert(seq!['('].drop_last() =~= Seq::<char>::empty());
    assert(seq!['('].last() == '(');
    assert(nesting(seq!['(']) == 1);
    assert(close.drop_last() =~= Seq::<char>::empty());
    assert(close.last() == ')');
    assert(nesting(close) == -1);
    assert forall|k: int| 0 <= k <= (open + close).len() implies nesting(#[trigger] (open + close).take(k)) >= 0 by {
        lemma_nesting_prefix(open, close, k);
        if k <= open.len() {
            lemma_nesting_prefix(seq!['('], x, k);
            if k == 0 {
                assert(seq!['('].take(0) =~= Seq::<char>::empty());
            } else if k == 1 {
                assert(seq!['('].take(1) =~= seq!['(']);
            } else {
                assert(nesting(x.take(k - 1)) >= 0);
            }
        } else {
            assert(close.take(1) =~= close);
        }
    }
}

/// Every prefix of a text without parentheses has nesting zero.
proof fn lemma_flat_prefix(s: Seq<char>, k: int)
    requires
        0 <= k <= s.len(),
        forall|i: int| 0 <= i < s.len() ==> #[trigger] s[i] != '(' && s[i] != ')',
    ensures
        nesting(s.take(k)) == 0,
    decreases k,
{
    if k > 0 {
        assert(s.take(k).drop_last() =~= s.take(k - 1));
        assert(s.take(k).last() == s[k - 1]);
        lemma_flat_prefix(s, k - 1);
    }
}

/// A text without parentheses is balanced.
pub proof fn lemma_balanced_flat(s: Seq<char>)
    requires
        forall|i: int| 0 <= i < s.len() ==> #[trigger] s[i] != '(' && s[i] != ')',
    ensures
        balanced(s),
{
    assert forall|k: int| 0 <= k <= s.len() implies nesting(#[trigger] s.take(k)) >= 0 by {
        lemma_flat_prefix(s, k);
    }
    lemma_flat_prefix(s, s.len() as int);
    assert(s.take(s.len() as int) =~= s);
}

} // verus!
