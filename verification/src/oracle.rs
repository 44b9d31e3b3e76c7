//! A bounded language oracle for expression trees: it decides whether an expression matches
//! a whole text by trying every split of concatenations and tracking the reachable
//! character boundaries of repetitions, remembering the answer for every node and span.
use std::collections::HashMap;
use vstd::prelude::*;
use vstd::string::*;

use crate::positions::boundaries;
use crate::regex::{
    accepts, in_class, lemma_accepts_concat, lemma_accepts_count, lemma_at_least_within,
    lemma_repeats_extend, lemma_repeats_last, lemma_repeats_prefix, lemma_repeats_zero, repeats, CharRange, Count, Expr, Regex,
};

verus! {

/// Answers already computed for one node of an expression, keyed by span, with the memos
/// of the node's children.
struct Memo {
    table: HashMap<u128, bool>,
    first: Option<Box<Memo>>,
    second: Option<Box<Memo>>,
}

/// The key of the span between two byte offsets.
spec fn span_key_spec(start: usize, end: usize) -> u128 {
    (start as int * 0x1_0000_0000_0000_0000 + end as int) as u128
}

/// The key of the span between the `s`-th and the `f`-th character boundary.
spec fn key_at(pos: Seq<usize>, s: int, f: int) -> u128 {
    span_key_spec(pos[s], pos[f])
}

/// `pos` holds one strictly increasing offset per character boundary of `t`.
spec fn layout_ok(t: Seq<char>, pos: Seq<usize>) -> bool {
    &&& pos.len() == t.len() + 1
    &&& t.len() < usize::MAX
    &&& forall|i: int, j: int| 0 <= i < j <= t.len() ==> #[trigger] pos[i] < #[trigger] pos[j]
}

/// Every stored answer is the language's answer for its span.
spec fn table_sound(table: Map<u128, bool>, e: Expr, t: Seq<char>, pos: Seq<usize>) -> bool {
    forall|s: int, f: int|
        0 <= s <= f <= t.len() && #[trigger] table.contains_key(key_at(pos, s, f)) ==> table[key_at(pos, s, f)]
            == accepts(e, t.subrange(s, f))
}

/// The memo has one node per node of the expression, and every stored answer is right.
spec fn memo_ok(m: Memo, e: Expr, t: Seq<char>, pos: Seq<usize>) -> bool
    decreases e,
{
    &&& table_sound(m.table@, e, t, pos)
    &&& match e {
        Expr::Concat(a, b) => {
            &&& m.first is Some
            &&& m.second is Some
            &&& memo_ok(*m.first.unwrap(), *a, t, pos)
            &&& memo_ok(*m.second.unwrap(), *b, t, pos)
        },
        Expr::Or(a, b) => {
            &&& m.first is Some
            &&& m.second is Some
            &&& memo_ok(*m.first.unwrap(), *a, t, pos)
            &&& memo_ok(*m.second.unwrap(), *b, t, pos)
        },
        Expr::Count(inner, _) => m.first is Some && memo_ok(*m.first.unwrap(), *inner, t, pos),
        _ => true,
    }
}

/// Every answer stored in the first memo, at every node, is still stored, unchanged, in the
/// second: answers are only ever added.
spec fn memo_grows(before: Memo, after: Memo, e: Expr) -> bool
    decreases e,
{
    &&& before.table@.submap_of(after.table@)
    &&& match e {
        Expr::Concat(a, b) => {
            &&& memo_grows(*before.first.unwrap(), *after.first.unwrap(), *a)
            &&& memo_grows(*before.second.unwrap(), *after.second.unwrap(), *b)
        },
        Expr::Or(a, b) => {
            &&& memo_grows(*before.first.unwrap(), *after.first.unwrap(), *a)
            &&& memo_grows(*before.second.unwrap(), *after.second.unwrap(), *b)
        },
        Expr::Count(inner, _) => memo_grows(*before.first.unwrap(), *after.first.unwrap(), *inner),
        _ => true,
    }
}

proof fn lemma_memo_grows_refl(m: Memo, e: Expr)
    ensures
        memo_grows(m, m, e),
    decreases e,
{
    match e {
        Expr::Concat(a, b) => {
            lemma_memo_grows_refl(*m.first.unwrap(), *a);
            lemma_memo_grows_refl(*m.second.unwrap(), *b);
        },
        Expr::Or(a, b) => {
            lemma_memo_grows_refl(*m.first.unwrap(), *a);
            lemma_memo_grows_refl(*m.second.unwrap(), *b);
        },
        Expr::Count(inner, _) => {
            lemma_memo_grows_refl(*m.first.unwrap(), *inner);
        },
        _ => {},
    }
}

proof fn lemma_memo_grows_trans(m1: Memo, m2: Memo, m3: Memo, e: Expr)
    requires
        memo_grows(m1, m2, e),
        memo_grows(m2, m3, e),
    ensures
        memo_grows(m1, m3, e),
    decreases e,
{
    vstd::map_lib::lemma_submap_of_trans(m1.table@, m2.table@, m3.table@);
    match e {
        Expr::Concat(a, b) => {
            lemma_memo_grows_trans(*m1.first.unwrap(), *m2.first.unwrap(), *m3.first.unwrap(), *a);
            lemma_memo_grows_trans(*m1.second.unwrap(), *m2.second.unwrap(), *m3.second.unwrap(), *b);
        },
        Expr::Or(a, b) => {
            lemma_memo_grows_trans(*m1.first.unwrap(), *m2.first.unwrap(), *m3.first.unwrap(), *a);
            lemma_memo_grows_trans(*m1.second.unwrap(), *m2.second.unwrap(), *m3.second.unwrap(), *b);
        },
        Expr::Count(inner, _) => {
            lemma_memo_grows_trans(*m1.first.unwrap(), *m2.first.unwrap(), *m3.first.unwrap(), *inner);
        },
        _ => {},
    }
}

proof fn lemma_span_key_injective(a: usize, b: usize, c: usize, d: usize)
    requires
        span_key_spec(a, b) == span_key_spec(c, d),
    ensures
        a == c,
        b == d,
{
    let big: int = 0x1_0000_0000_0000_0000;
    assert(a as int * big + b as int <= u128::MAX) by (nonlinear_arith)
        requires
            a <= 0xFFFF_FFFF_FFFF_FFFFint,
            b <= 0xFFFF_FFFF_FFFF_FFFFint,
            big == 0x1_0000_0000_0000_0000,
    ;
    assert(c as int * big + d as int <= u128::MAX) by (nonlinear_arith)
        requires
            c <= 0xFFFF_FFFF_FFFF_FFFFint,
            d <= 0xFFFF_FFFF_FFFF_FFFFint,
            big == 0x1_0000_0000_0000_0000,
    ;
    assert(a as int * big + b as int == c as int * big + d as int);
    assert(a == c && b == d) by (nonlinear_arith)
        requires
            a as int * big + b as int == c as int * big + d as int,
            0 <= b < big,
            0 <= d < big,
            0 <= a,
            0 <= c,
            big > 0,
    {
        if a < c {
            assert(a as int * big + big <= c as int * big);
        } else if c < a {
            assert(c as int * big + big <= a as int * big);
        }
    }
}

/// Storing the language's answer for a span keeps the table sound.
proof fn lemma_table_insert(table: Map<u128, bool>, e: Expr, t: Seq<char>, pos: Seq<usize>, s: int, f: int)
    requires
        table_sound(table, e, t, pos),
        layout_ok(t, pos),
        0 <= s <= f <= t.len(),
    ensures
        table_sound(table.insert(key_at(pos, s, f), accepts(e, t.subrange(s, f))), e, t, pos),
{
    let v = accepts(e, t.subrange(s, f));
    let new_table = table.insert(key_at(pos, s, f), v);
    assert forall|s2: int, f2: int|
        0 <= s2 <= f2 <= t.len() && #[trigger] new_table.contains_key(key_at(pos, s2, f2)) implies new_table[key_at(
        pos,
        s2,
        f2,
    )] == accepts(e, t.subrange(s2, f2)) by {
        if key_at(pos, s2, f2) == key_at(pos, s, f) {
            lemma_span_key_injective(pos[s2], pos[f2], pos[s], pos[f]);
            if s2 < s {
                assert(pos[s2] < pos[s]);
            } else if s < s2 {
                assert(pos[s] < pos[s2]);
            }
            if f2 < f {
                assert(pos[f2] < pos[f]);
            } else if f < f2 {
                assert(pos[f] < pos[f2]);
            }
        } else {
            assert(table.contains_key(key_at(pos, s2, f2)));
        }
    }
}

fn span_key(start: usize, end: usize) -> (key: u128)
    ensures
        key == span_key_spec(start, end),
{
    proof {
        let big: int = 0x1_0000_0000_0000_0000;
        assert(start as int * big + end as int <= u128::MAX) by (nonlinear_arith)
            requires
                start <= 0xFFFF_FFFF_FFFF_FFFFint,
                end <= 0xFFFF_FFFF_FFFF_FFFFint,
                big == 0x1_0000_0000_0000_0000,
        ;
    }
    (start as u128) * 0x1_0000_0000_0000_0000u128 + (end as u128)
}

/// A memo with the shape of the expression and nothing stored yet.
fn memo_for(r: &Regex, Ghost(t): Ghost<Seq<char>>, Ghost(pos): Ghost<Seq<usize>>) -> (m: Memo)
    ensures
        memo_ok(m, r@, t, pos),
    decreases r,
{
    let table: HashMap<u128, bool> = HashMap::new();
    match r {
        Regex::Concat(a, b) => Memo {
            table,
            first: Some(Box::new(memo_for(a, Ghost(t), Ghost(pos)))),
            second: Some(Box::new(memo_for(b, Ghost(t), Ghost(pos)))),
        },
        Regex::Or(a, b) => Memo {
            table,
            first: Some(Box::new(memo_for(a, Ghost(t), Ghost(pos)))),
            second: Some(Box::new(memo_for(b, Ghost(t), Ghost(pos)))),
        },
        Regex::Count(inner, _) => Memo {
            table,
            first: Some(Box::new(memo_for(inner, Ghost(t), Ghost(pos)))),
            second: None,
        },
        _ => Memo { table, first: None, second: None },
    }
}

/// Whether `x` occurs in `v`.
fn holds(v: &Vec<usize>, x: usize) -> (found: bool)
    ensures
        found == v@.contains(x),
{
    let mut i: usize = 0;
    while i < v.len()
        invariant
            i <= v@.len(),
            forall|j: int| 0 <= j < i ==> v@[j] != x,
        decreases v@.len() - i,
    {
        if v[i] == x {
            return true;
        }
        i = i + 1;
    }
    false
}

/// Whether some range of the class holds `c`.
fn class_holds(ranges: &Vec<CharRange>, c: char) -> (found: bool)
    ensures
        found == in_class(ranges@, c),
{
    let mut i: usize = 0;
    while i < ranges.len()
        invariant
            i <= ranges@.len(),
            forall|j: int| 0 <= j < i ==> !crate::regex::in_range(#[trigger] ranges@[j], c),
        decreases ranges@.len() - i,
    {
        let hit = match ranges[i] {
            CharRange::Single(ch) => ch == c,
            CharRange::Range(start, end) => start <= c && c <= end,
        };
        if hit {
            return true;
        }
        i = i + 1;
    }
    false
}

/// Whether the expression matches the characters between boundaries `s` and `e`.
fn match_span(r: &Regex, memo: &mut Memo, chars: &Vec<char>, pos: &Vec<usize>, s: usize, e: usize) -> (matched: bool)
    requires
        layout_ok(chars@, pos@),
        s <= e <= chars@.len(),
        memo_ok(*old(memo), r@, chars@, pos@),
    ensures
        matched == accepts(r@, chars@.subrange(s as int, e as int)),
        memo_ok(*final(memo), r@, chars@, pos@),
        memo_grows(*old(memo), *final(memo), r@),
    decreases r, 2nat,
{
    let ghost entry = *memo;
    proof {
        lemma_memo_grows_refl(entry, r@);
    }
    let key = span_key(pos[s], pos[e]);
    assert(key == key_at(pos@, s as int, e as int));
    match memo.table.get(&key) {
        Some(v) => {
            return *v;
        },
        None => {},
    }
    let ghost t = chars@.subrange(s as int, e as int);
    let matched = match r {
        Regex::Empty => false,
        Regex::Epsilon => s == e,
        Regex::Literal(c) => {
            let hit = e - s == 1 && chars[s] == *c;
            proof {
                if hit {
                    assert(t =~= seq![*c]);
                } else if t.len() == 1 {
                    assert(t[0] != seq![*c][0]);
                }
            }
            hit
        },
        Regex::Class(ranges) => e - s == 1 && class_holds(ranges, chars[s]),
        Regex::Or(a, b) => {
            let mut left = memo.first.take().unwrap();
            let x = match_span(a, &mut left, chars, pos, s, e);
            memo.first = Some(left);
            if x {
                proof {
                    lemma_memo_grows_refl(*entry.second.unwrap(), b@);
                }
                true
            } else {
                let mut right = memo.second.take().unwrap();
                let y = match_span(b, &mut right, chars, pos, s, e);
                memo.second = Some(right);
                y
            }
        },
        Regex::Concat(_, _) => concat_span(r, memo, chars, pos, s, e),
        Regex::Count(_, _) => count_span(r, memo, chars, pos, s, e),
    };
    let ghost before = memo.table@;
    assert(before == entry.table@);
    assert(!before.contains_key(key));
    memo.table.insert(key, matched);
    proof {
        lemma_table_insert(before, r@, chars@, pos@, s as int, e as int);
        assert(entry.table@.submap_of(memo.table@));
    }
    matched
}

#[verifier::loop_isolation(false)]
/// A concatenation matches when some split lets both parts match, tried from left to right.
fn concat_span(r: &Regex, memo: &mut Memo, chars: &Vec<char>, pos: &Vec<usize>, s: usize, e: usize) -> (matched: bool)
    requires
        r is Concat,
        layout_ok(chars@, pos@),
        s <= e <= chars@.len(),
        memo_ok(*old(memo), r@, chars@, pos@),
    ensures
        matched == accepts(r@, chars@.subrange(s as int, e as int)),
        memo_ok(*final(memo), r@, chars@, pos@),
        final(memo).table@ == old(memo).table@,
        memo_grows(*old(memo), *final(memo), r@),
    decreases r, 1nat,
{
    match r {
        Regex::Concat(a, b) => {
            let ghost t = chars@.subrange(s as int, e as int);
            let mut left = memo.first.take().unwrap();
            let mut right = memo.second.take().unwrap();
            let ghost left0 = *left;
            let ghost right0 = *right;
            proof {
                lemma_memo_grows_refl(left0, a@);
                lemma_memo_grows_refl(right0, b@);
            }
            let mut k = s;
            let mut found = false;
            while k <= e && !found
                invariant
                    layout_ok(chars@, pos@),
                    s <= k <= e + 1,
                    e <= chars@.len(),
                    memo_ok(*left, a@, chars@, pos@),
                    memo_ok(*right, b@, chars@, pos@),
                    memo_grows(left0, *left, a@),
                    memo_grows(right0, *right, b@),
                    found ==> s < k && accepts(a@, chars@.subrange(s as int, k - 1)) && accepts(
                        b@,
                        chars@.subrange(k - 1, e as int),
                    ),
                    !found ==> forall|j: int|
                        s <= j < k ==> !(accepts(a@, #[trigger] chars@.subrange(s as int, j)) && accepts(
                            b@,
                            chars@.subrange(j, e as int),
                        )),
                decreases e + 1 - k,
            {
                let ghost left1 = *left;
                let ghost right1 = *right;
                if match_span(a, &mut left, chars, pos, s, k) && match_span(b, &mut right, chars, pos, k, e) {
                    found = true;
                }
                proof {
                    if *right == right1 {
                        lemma_memo_grows_refl(right1, b@);
                    }
                    lemma_memo_grows_trans(left0, left1, *left, a@);
                    lemma_memo_grows_trans(right0, right1, *right, b@);
                }
                k = k + 1;
            }
            memo.first = Some(left);
            memo.second = Some(right);
            proof {
                lemma_accepts_concat(a@, b@, t);
                if found {
                    let j = k - 1 - s;
                    assert(t.take(j) =~= chars@.subrange(s as int, k - 1));
                    assert(t.skip(j) =~= chars@.subrange(k - 1, e as int));
                } else {
                    assert forall|j: int| 0 <= j <= t.len() implies !(accepts(a@, #[trigger] t.take(j)) && accepts(b@, t.skip(j))) by {
                        assert(t.take(j) =~= chars@.subrange(s as int, s + j));
                        assert(t.skip(j) =~= chars@.subrange(s + j, e as int));
                    }
                }
            }
            found
        },
        _ => false,
    }
}

#[verifier::loop_isolation(false)]
/// The boundaries reachable from `s` with one more piece accepted by `inner`.
fn next_reachable(
    r: &Regex,
    child: &mut Memo,
    chars: &Vec<char>,
    pos: &Vec<usize>,
    s: usize,
    e: usize,
    reachable: &Vec<usize>,
    Ghost(reps): Ghost<nat>,
) -> (next: Vec<usize>)
    requires
        r is Count,
        layout_ok(chars@, pos@),
        s <= e <= chars@.len(),
        memo_ok(*old(child), (*r->Count_0)@, chars@, pos@),
        forall|j: usize|
            reachable@.contains(j) <==> (s <= j <= e && repeats(
                (*r->Count_0)@,
                reps,
                chars@.subrange(s as int, j as int),
            )),
    ensures
        memo_ok(*final(child), (*r->Count_0)@, chars@, pos@),
        memo_grows(*old(child), *final(child), (*r->Count_0)@),
        forall|j: usize|
            next@.contains(j) <==> (s <= j <= e && repeats(
                (*r->Count_0)@,
                reps + 1,
                chars@.subrange(s as int, j as int),
            )),
    decreases r, 0nat,
{
    match r {
        Regex::Count(inner, _) => {
            let ghost ie = inner@;
            let ghost child0 = *child;
            proof {
                lemma_memo_grows_refl(child0, ie);
            }
            let mut next: Vec<usize> = Vec::new();
            let mut idx: usize = 0;
            while idx < reachable.len()
                invariant
                    layout_ok(chars@, pos@),
                    s <= e <= chars@.len(),
                    idx <= reachable@.len(),
                    ie == inner@,
                    memo_ok(*child, ie, chars@, pos@),
                    memo_grows(child0, *child, ie),
                    forall|j: usize|
                        reachable@.contains(j) <==> (s <= j <= e && repeats(
                            ie,
                            reps,
                            chars@.subrange(s as int, j as int),
                        )),
                    forall|j: usize|
                        next@.contains(j) <==> exists|i: int|
                            0 <= i < idx && #[trigger] reachable@[i] <= j <= e && accepts(
                                ie,
                                chars@.subrange(reachable@[i] as int, j as int),
                            ),
                decreases reachable@.len() - idx,
            {
                let start = reachable[idx];
                assert(reachable@.contains(start));
                let mut end = start;
                while end <= e
                    invariant
                        layout_ok(chars@, pos@),
                        s <= start <= end <= e + 1,
                        e <= chars@.len(),
                        idx < reachable@.len(),
                        start == reachable@[idx as int],
                        ie == inner@,
                        memo_ok(*child, ie, chars@, pos@),
                        memo_grows(child0, *child, ie),
                        forall|j: usize|
                            next@.contains(j) <==> (exists|i: int|
                                0 <= i < idx && #[trigger] reachable@[i] <= j <= e && accepts(
                                    ie,
                                    chars@.subrange(reachable@[i] as int, j as int),
                                )) || (start <= j < end && accepts(ie, chars@.subrange(start as int, j as int))),
                    decreases e + 1 - end,
                {
                    let ghost before = next@;
                    let ghost child1 = *child;
                    let hit = match_span(inner, child, chars, pos, start, end);
                    proof {
                        lemma_memo_grows_trans(child0, child1, *child, ie);
                    }
                    if hit && !holds(&next, end) {
                        next.push(end);
                    }
                    proof {
                        assert(hit == accepts(ie, chars@.subrange(start as int, end as int)));
                        assert forall|j: usize| next@.contains(j) <==> (before.contains(j) || (j == end && hit)) by {
                            if hit && !before.contains(end) {
                                assert(next@ == before.push(end));
                                if j == end {
                                    assert(next@[before.len() as int] == end);
                                }
                                if next@.contains(j) && j != end {
                                    let q = choose|q: int| 0 <= q < next@.len() && next@[q] == j;
                                    assert(before[q] == j);
                                }
                                if before.contains(j) {
                                    let q = choose|q: int| 0 <= q < before.len() && before[q] == j;
                                    assert(next@[q] == j);
                                }
                            }
                        }
                        assert forall|j: usize|
                            next@.contains(j) <==> (exists|i: int|
                                0 <= i < idx && #[trigger] reachable@[i] <= j <= e && accepts(
                                    ie,
                                    chars@.subrange(reachable@[i] as int, j as int),
                                )) || (start <= j < end + 1 && accepts(ie, chars@.subrange(start as int, j as int))) by {
                            assert(before.contains(j) <==> (exists|i: int|
                                0 <= i < idx && #[trigger] reachable@[i] <= j <= e && accepts(
                                    ie,
                                    chars@.subrange(reachable@[i] as int, j as int),
                                )) || (start <= j < end && accepts(ie, chars@.subrange(start as int, j as int))));
                        }
                    }
                    end = end + 1;
                }
                idx = idx + 1;
                assert forall|j: usize|
                    next@.contains(j) <==> exists|i: int|
                        0 <= i < idx && #[trigger] reachable@[i] <= j <= e && accepts(
                            ie,
                            chars@.subrange(reachable@[i] as int, j as int),
                        ) by {
                    if start <= j <= e && accepts(ie, chars@.subrange(start as int, j as int)) {
                        assert(reachable@[idx - 1] == start);
                    }
                }
            }
            proof {
                assert forall|j: usize|
                    next@.contains(j) <==> (s <= j <= e && repeats(
                        ie,
                        reps + 1,
                        chars@.subrange(s as int, j as int),
                    )) by {
                    if next@.contains(j) {
                        let i = choose|i: int|
                            0 <= i < reachable@.len() && #[trigger] reachable@[i] <= j <= e && accepts(
                                ie,
                                chars@.subrange(reachable@[i] as int, j as int),
                            );
                        let st = reachable@[i];
                        assert(reachable@.contains(st));
                        let x = chars@.subrange(s as int, j as int);
                        let k = st - s;
                        assert(x.take(k) =~= chars@.subrange(s as int, st as int));
                        assert(x.skip(k) =~= chars@.subrange(st as int, j as int));
                        lemma_repeats_extend(ie, reps, x, k);
                    }
                    if s <= j <= e && repeats(ie, reps + 1, chars@.subrange(s as int, j as int)) {
                        let x = chars@.subrange(s as int, j as int);
                        lemma_repeats_last(ie, reps, x);
                        let k = choose|k: int|
                            0 <= k <= x.len() && #[trigger] repeats(ie, reps, x.take(k)) && accepts(ie, x.skip(k));
                        let st = (s + k) as usize;
                        assert(x.take(k) =~= chars@.subrange(s as int, st as int));
                        assert(x.skip(k) =~= chars@.subrange(st as int, j as int));
                        assert(reachable@.contains(st));
                        let i = choose|i: int| 0 <= i < reachable@.len() && reachable@[i] == st;
                        assert(reachable@[i] <= j <= e);
                    }
                }
            }
            next
        },
        _ => Vec::new(),
    }
}

/// A counted repetition matches when the end of the span is reachable with an allowed
/// number of pieces; `AtLeast(min)` never needs more than `min` plus the span's length,
/// and a bound that saturates at `usize::MAX` still reaches both `min` and that length.
fn count_span(r: &Regex, memo: &mut Memo, chars: &Vec<char>, pos: &Vec<usize>, s: usize, e: usize) -> (matched: bool)
    requires
        r is Count,
        layout_ok(chars@, pos@),
        s <= e <= chars@.len(),
        memo_ok(*old(memo), r@, chars@, pos@),
    ensures
        matched == accepts(r@, chars@.subrange(s as int, e as int)),
        memo_ok(*final(memo), r@, chars@, pos@),
        final(memo).table@ == old(memo).table@,
        memo_grows(*old(memo), *final(memo), r@),
    decreases r, 1nat,
{
    match r {
        Regex::Count(inner, count) => {
            let ghost t = chars@.subrange(s as int, e as int);
            let ghost ie = inner@;
            let (min, max) = match count {
                Count::Exact(n) => (*n, *n),
                Count::Range(lo, hi) => (*lo, *hi),
                Count::AtLeast(lo) => (*lo, lo.saturating_add(e - s)),
            };
            let mut child = memo.first.take().unwrap();
            let ghost child0 = *child;
            proof {
                lemma_memo_grows_refl(child0, ie);
            }
            let mut reachable: Vec<usize> = Vec::new();
            reachable.push(s);
            proof {
                assert forall|j: usize|
                    reachable@.contains(j) <==> (s <= j <= e && repeats(ie, 0, chars@.subrange(s as int, j as int))) by {
                    lemma_repeats_zero(ie, chars@.subrange(s as int, j as int));
                    if reachable@.contains(j) {
                        assert(reachable@[0] == j);
                    }
                    if j == s {
                        assert(reachable@[0] == j);
                    }
                }
            }
            let mut reps: usize = 0;
            let mut found = false;
            loop
                invariant_except_break
                    !found,
                    reps <= max,
                    forall|j: usize|
                        reachable@.contains(j) <==> (s <= j <= e && repeats(
                            ie,
                            reps as nat,
                            chars@.subrange(s as int, j as int),
                        )),
                    forall|n: nat| min <= n < reps ==> !#[trigger] repeats(ie, n, t),
                invariant
                    layout_ok(chars@, pos@),
                    s <= e <= chars@.len(),
                    t == chars@.subrange(s as int, e as int),
                    ie == inner@,
                    r@ == Expr::Count(Box::new(ie), *count),
                    memo_ok(*child, ie, chars@, pos@),
                    memo_grows(child0, *child, ie),
                ensures
                    found <==> exists|n: nat| min <= n <= max && #[trigger] repeats(ie, n, t),
                decreases max - reps,
            {
                if reps >= min && holds(&reachable, e) {
                    found = true;
                    proof {
                        assert(repeats(ie, reps as nat, chars@.subrange(s as int, e as int)));
                        assert(min <= reps as nat <= max && repeats(ie, reps as nat, t));
                    }
                    break;
                }
                if reps == max {
                    proof {
                        assert forall|n: nat| min <= n <= max implies !#[trigger] repeats(ie, n, t) by {
                            if n == reps {
                                assert(!reachable@.contains(e));
                            }
                        }
                        assert(!found);
                    }
                    break;
                }
                let ghost child1 = *child;
                let next = next_reachable(r, &mut child, chars, pos, s, e, &reachable, Ghost(reps as nat));
                proof {
                    lemma_memo_grows_trans(child0, child1, *child, ie);
                }
                if next.len() == 0 {
                    proof {
                        assert forall|n: nat| min <= n <= max implies !#[trigger] repeats(ie, n, t) by {
                            if n == reps {
                                assert(!reachable@.contains(e));
                            } else if n > reps {
                                if repeats(ie, n, t) {
                                    lemma_repeats_prefix(ie, n, t, (reps + 1) as nat);
                                    let j = choose|j: int| 0 <= j <= t.len() && #[trigger] repeats(ie, (reps + 1) as nat, t.take(j));
                                    assert(t.take(j) =~= chars@.subrange(s as int, s + j));
                                    assert(next@.contains((s + j) as usize));
                                }
                            }
                        }
                    }
                    break;
                }
                proof {
                    assert(!(reps >= min && reachable@.contains(e)));
                    assert forall|n: nat| min <= n < reps + 1 implies !#[trigger] repeats(ie, n, t) by {
                        if n == reps {
                            assert(!reachable@.contains(e));
                        }
                    }
                }
                reachable = next;
                reps = reps + 1;
            }
            memo.first = Some(child);
            proof {
                lemma_accepts_count(ie, *count, t);
                match *count {
                    Count::AtLeast(lo) => {
                        lemma_at_least_within(ie, lo, t, max as nat);
                    },
                    _ => {
                        if found {
                            let n = choose|n: nat| min <= n <= max && #[trigger] repeats(ie, n, t);
                            assert(crate::regex::count_allows(*count, n));
                        }
                    },
                }
            }
            found
        },
        _ => false,
    }
}

/// Whether `regex` matches the whole of `text`.
///
/// Concatenation tries every split, and repetition tracks the character boundaries
/// reachable after each number of pieces; `AtLeast(min)` needs at most `min` plus the
/// text's length in characters, even when the inner expression matches the empty text.
pub fn reference_matches(regex: &Regex, text: &str) -> (matched: bool)
    ensures
        matched == accepts(regex@, text@),
{
    let n = text.unicode_len();
    let mut chars: Vec<char> = Vec::new();
    let mut i: usize = 0;
    while i < n
        invariant
            n == text@.len(),
            i <= n,
            chars@ == text@.take(i as int),
        decreases n - i,
    {
        chars.push(text.get_char(i));
        i = i + 1;
        assert(chars@ =~= text@.take(i as int));
    }
    assert(chars@ =~= text@);
    let positions = boundaries(text);
    let count = positions.len();
    let mut memo = memo_for(regex, Ghost(chars@), Ghost(positions@));
    let matched = match_span(regex, &mut memo, &chars, &positions, 0, n);
    assert(chars@.subrange(0, n as int) =~= text@);
    matched
}

} // verus!
