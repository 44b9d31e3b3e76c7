//! Regular expression trees and their language.
use vstd::prelude::*;

verus! {

/// A set of characters inside a character class.
#[derive(Clone, Copy, Debug, PartialEq, Eq)]
pub enum CharRange {
    /// A single character.
    Single(char),
    /// All characters from the first to the second, both included.
    Range(char, char),
}

/// How many times a repeated expression may match.
#[derive(Clone, Copy, Debug, PartialEq, Eq)]
pub enum Count {
    /// Exactly `n` times.
    Exact(usize),
    /// Between `min` and `max` times, both included.
    Range(usize, usize),
    /// At least `min` times.
    AtLeast(usize),
}

/// A regular expression tree.
#[derive(Debug)]
pub enum Regex {
    /// Matches nothing.
    Empty,
    /// Matches the empty string.
    Epsilon,
    /// Matches one given character.
    Literal(char),
    /// Matches the concatenation of two expressions.
    Concat(Box<Regex>, Box<Regex>),
    /// Matches either of two expressions.
    Or(Box<Regex>, Box<Regex>),
    /// Matches one character of the class.
    Class(Vec<CharRange>),
    /// Matches the inner expression a counted number of times.
    Count(Box<Regex>, Count),
}

/// The mathematical content of a [`Regex`]: the same tree with classes as sequences.
pub ghost enum Expr {
    Empty,
    Epsilon,
    Literal(char),
    Concat(Box<Expr>, Box<Expr>),
    Or(Box<Expr>, Box<Expr>),
    Class(Seq<CharRange>),
    Count(Box<Expr>, Count),
}

pub open spec fn model(r: &Regex) -> Expr
    decreases r,
{
    match r {
        Regex::Empty => Expr::Empty,
        Regex::Epsilon => Expr::Epsilon,
        Regex::Literal(c) => Expr::Literal(*c),
        Regex::Concat(a, b) => Expr::Concat(Box::new(model(a)), Box::new(model(b))),
        Regex::Or(a, b) => Expr::Or(Box::new(model(a)), Box::new(model(b))),
        Regex::Class(ranges) => Expr::Class(ranges@),
        Regex::Count(inner, count) => Expr::Count(Box::new(model(inner)), *count),
    }
}

impl View for Regex {
    type V = Expr;

    open spec fn view(&self) -> Expr {
        model(self)
    }
}

/// Whether the character lies in the range.
pub open spec fn in_range(range: CharRange, c: char) -> bool {
    match range {
        CharRange::Single(ch) => ch == c,
        CharRange::Range(start, end) => start <= c && c <= end,
    }
}

/// Whether some range of the class holds the character.
pub open spec fn in_class(ranges: Seq<CharRange>, c: char) -> bool {
    exists|i: int| 0 <= i < ranges.len() && in_range(#[trigger] ranges[i], c)
}

/// Whether `n` repetitions are allowed by the count.
pub open spec fn count_allows(count: Count, n: nat) -> bool {
    match count {
        Count::Exact(k) => n == k,
        Count::Range(min, max) => min <= n && n <= max,
        Count::AtLeast(min) => min <= n,
    }
}

/// Whether `cuts` marks a split of a text of length `len`: it starts at 0, ends at `len`
/// and never goes back.
pub open spec fn is_split(cuts: Seq<int>, len: int) -> bool {
    &&& cuts.len() >= 1
    &&& cuts[0] == 0
    &&& cuts.last() == len
    &&& forall|i: int, j: int| 0 <= i <= j < cuts.len() ==> cuts[i] <= cuts[j]
}

/// The language of an expression: whether it matches the whole of `t`.
pub open spec fn accepts(e: Expr, t: Seq<char>) -> bool
    decreases e,
{
    match e {
        Expr::Empty => false,
        Expr::Epsilon => t.len() == 0,
        Expr::Literal(c) => t == seq![c],
        Expr::Class(ranges) => t.len() == 1 && in_class(ranges, t[0]),
        Expr::Or(a, b) => accepts(*a, t) || accepts(*b, t),
        Expr::Concat(a, b) => exists|k: int|
            0 <= k <= t.len() && accepts(*a, #[trigger] t.take(k)) && accepts(*b, t.skip(k)),
        Expr::Count(inner, count) => exists|cuts: Seq<int>|
            #![trigger is_split(cuts, t.len() as int)]
            count_allows(count, (cuts.len() - 1) as nat) && is_split(cuts, t.len() as int) && forall|i: int|
                0 <= i < cuts.len() - 1 ==> accepts(*inner, #[trigger] t.subrange(cuts[i], cuts[i + 1])),
    }
}

/// Whether `t` splits into exactly `n` consecutive pieces, each accepted by `e`.
pub open spec fn repeats(e: Expr, n: nat, t: Seq<char>) -> bool {
    exists|cuts: Seq<int>|
        #![trigger is_split(cuts, t.len() as int)]
        cuts.len() == n + 1 && is_split(cuts, t.len() as int) && forall|i: int|
            0 <= i < cuts.len() - 1 ==> #[trigger] accepts(e, t.subrange(cuts[i], cuts[i + 1]))
}

/// No pieces split exactly the empty text.
pub proof fn lemma_repeats_zero(e: Expr, t: Seq<char>)
    ensures
        repeats(e, 0, t) <==> t.len() == 0,
{
    if t.len() == 0 {
        let cuts = seq![0int];
        assert(is_split(cuts, t.len() as int));
    }
    if repeats(e, 0, t) {
        let cuts = choose|cuts: Seq<int>|
            #![trigger is_split(cuts, t.len() as int)]
            cuts.len() == 1 && is_split(cuts, t.len() as int) && forall|i: int|
                0 <= i < cuts.len() - 1 ==> #[trigger] accepts(e, t.subrange(cuts[i], cuts[i + 1]));
        assert(cuts[0] == cuts.last());
    }
}

/// A split into `n > 0` pieces is a split of a prefix into `n - 1` pieces followed by
/// one last piece.
pub proof fn lemma_repeats_step(e: Expr, n: nat, t: Seq<char>)
    requires
        n > 0,
    ensures
        repeats(e, n, t) <==> exists|k: int|
            0 <= k <= t.len() && #[trigger] repeats(e, (n - 1) as nat, t.take(k)) && accepts(e, t.skip(k)),
{
    if repeats(e, n, t) {
        let cuts = choose|cuts: Seq<int>|
            #![trigger is_split(cuts, t.len() as int)]
            cuts.len() == n + 1 && is_split(cuts, t.len() as int) && forall|i: int|
                0 <= i < cuts.len() - 1 ==> #[trigger] accepts(e, t.subrange(cuts[i], cuts[i + 1]));
        let k = cuts[n - 1];
        let front = cuts.drop_last();
        let head = t.take(k);
        assert(0 <= k <= t.len());
        assert(is_split(front, head.len() as int));
        assert forall|i: int| 0 <= i < front.len() - 1 implies #[trigger] accepts(e, head.subrange(front[i], front[i + 1])) by {
            assert(head.subrange(front[i], front[i + 1]) =~= t.subrange(cuts[i], cuts[i + 1]));
            assert(accepts(e, t.subrange(cuts[i], cuts[i + 1])));
        }
        assert(repeats(e, (n - 1) as nat, head));
        assert(t.skip(k) =~= t.subrange(cuts[n - 1], cuts[n as int]));
        assert(accepts(e, t.subrange(cuts[n - 1], cuts[n as int])));
    }
    if exists|k: int| 0 <= k <= t.len() && #[trigger] repeats(e, (n - 1) as nat, t.take(k)) && accepts(e, t.skip(k)) {
        let k = choose|k: int|
            0 <= k <= t.len() && #[trigger] repeats(e, (n - 1) as nat, t.take(k)) && accepts(e, t.skip(k));
        let head = t.take(k);
        let front = choose|cuts: Seq<int>|
            #![trigger is_split(cuts, head.len() as int)]
            cuts.len() == n && is_split(cuts, head.len() as int) && forall|i: int|
                0 <= i < cuts.len() - 1 ==> #[trigger] accepts(e, head.subrange(cuts[i], cuts[i + 1]));
        let cuts = front.push(t.len() as int);
        assert forall|i: int, j: int| 0 <= i <= j < cuts.len() implies cuts[i] <= cuts[j] by {
            if j < front.len() {
                assert(front[i] <= front[j]);
            } else if i < front.len() {
                assert(front[i] <= front[front.len() - 1]);
                assert(front[front.len() - 1] == head.len());
            }
        }
        assert(is_split(cuts, t.len() as int));
        assert forall|i: int| 0 <= i < cuts.len() - 1 implies #[trigger] accepts(e, t.subrange(cuts[i], cuts[i + 1])) by {
            if i < front.len() - 1 {
                assert(front[i] <= front[i + 1] <= front[front.len() - 1]);
                assert(head.subrange(front[i], front[i + 1]) =~= t.subrange(cuts[i], cuts[i + 1]));
                assert(accepts(e, head.subrange(front[i], front[i + 1])));
            } else {
                assert(t.subrange(cuts[i], cuts[i + 1]) =~= t.skip(k));
            }
        }
        assert(repeats(e, n, t));
    }
}

/// A split of a prefix into `n` pieces, followed by one more accepted piece, is a split
/// into `n + 1` pieces.
pub proof fn lemma_repeats_extend(e: Expr, n: nat, t: Seq<char>, k: int)
    requires
        0 <= k <= t.len(),
        repeats(e, n, t.take(k)),
        accepts(e, t.skip(k)),
    ensures
        repeats(e, n + 1, t),
{
    let m = n + 1;
    lemma_repeats_step(e, m, t);
    assert(repeats(e, (m - 1) as nat, t.take(k)));
}

/// A split into `n + 1` pieces ends with one accepted piece after a split of a prefix
/// into `n` pieces.
pub proof fn lemma_repeats_last(e: Expr, n: nat, t: Seq<char>)
    requires
        repeats(e, n + 1, t),
    ensures
        exists|k: int| 0 <= k <= t.len() && #[trigger] repeats(e, n, t.take(k)) && accepts(e, t.skip(k)),
{
    let m = n + 1;
    lemma_repeats_step(e, m, t);
    let k = choose|k: int|
        0 <= k <= t.len() && #[trigger] repeats(e, (m - 1) as nat, t.take(k)) && accepts(e, t.skip(k));
    assert(repeats(e, n, t.take(k)));
}

/// One step of the definition of [`accepts`] on a concatenation.
pub proof fn lemma_accepts_concat(a: Expr, b: Expr, t: Seq<char>)
    ensures
        accepts(Expr::Concat(Box::new(a), Box::new(b)), t) <==> exists|k: int|
            0 <= k <= t.len() && accepts(a, #[trigger] t.take(k)) && accepts(b, t.skip(k)),
{
}

/// A counted repetition accepts exactly the texts that split into an allowed number of
/// accepted pieces.
pub proof fn lemma_accepts_count(inner: Expr, count: Count, t: Seq<char>)
    ensures
        accepts(Expr::Count(Box::new(inner), count), t) <==> exists|n: nat|
            count_allows(count, n) && #[trigger] repeats(inner, n, t),
{
    if accepts(Expr::Count(Box::new(inner), count), t) {
        let cuts = choose|cuts: Seq<int>|
            #![trigger is_split(cuts, t.len() as int)]
            count_allows(count, (cuts.len() - 1) as nat) && is_split(cuts, t.len() as int) && forall|i: int|
                0 <= i < cuts.len() - 1 ==> accepts(inner, #[trigger] t.subrange(cuts[i], cuts[i + 1]));
        assert(repeats(inner, (cuts.len() - 1) as nat, t));
    }
    if exists|n: nat| count_allows(count, n) && #[trigger] repeats(inner, n, t) {
        let n = choose|n: nat| count_allows(count, n) && #[trigger] repeats(inner, n, t);
        let cuts = choose|cuts: Seq<int>|
            #![trigger is_split(cuts, t.len() as int)]
            cuts.len() == n + 1 && is_split(cuts, t.len() as int) && forall|i: int|
                0 <= i < cuts.len() - 1 ==> #[trigger] accepts(inner, t.subrange(cuts[i], cuts[i + 1]));
        assert(count_allows(count, (cuts.len() - 1) as nat));
        assert(forall|i: int|
            0 <= i < cuts.len() - 1 ==> accepts(inner, #[trigger] t.subrange(cuts[i], cuts[i + 1])));
        assert(is_split(cuts, t.len() as int));
    }
}

/// With more pieces than characters one piece is empty, and dropping it leaves a split
/// into one piece fewer.
pub proof fn lemma_repeats_fewer(e: Expr, n: nat, t: Seq<char>)
    requires
        repeats(e, n, t),
        n > t.len(),
    ensures
        repeats(e, (n - 1) as nat, t),
    decreases n,
{
    lemma_repeats_step(e, n, t);
    let k = choose|k: int|
        0 <= k <= t.len() && #[trigger] repeats(e, (n - 1) as nat, t.take(k)) && accepts(e, t.skip(k));
    if k == t.len() {
        assert(t.take(k) =~= t);
    } else {
        lemma_repeats_fewer(e, (n - 1) as nat, t.take(k));
        lemma_repeats_step(e, (n - 1) as nat, t);
    }
}

/// A split into at least `min` pieces can be shortened to one of at most `bound` pieces,
/// for any `bound` that reaches both `min` and the length of the text.
pub proof fn lemma_repeats_bounded(e: Expr, n: nat, t: Seq<char>, min: nat, bound: nat)
    requires
        repeats(e, n, t),
        min <= n,
        min <= bound,
        t.len() <= bound,
    ensures
        exists|m: nat| min <= m <= bound && #[trigger] repeats(e, m, t),
    decreases n,
{
    if n <= bound {
        assert(repeats(e, n, t));
    } else {
        lemma_repeats_fewer(e, n, t);
        lemma_repeats_bounded(e, (n - 1) as nat, t, min, bound);
    }
}

/// The first pieces of a split are a split of a prefix.
pub proof fn lemma_repeats_prefix(e: Expr, n: nat, t: Seq<char>, m: nat)
    requires
        repeats(e, n, t),
        m <= n,
    ensures
        exists|j: int| 0 <= j <= t.len() && #[trigger] repeats(e, m, t.take(j)),
    decreases n,
{
    if n == m {
        assert(t.take(t.len() as int) =~= t);
    } else {
        lemma_repeats_step(e, n, t);
        let k = choose|k: int|
            0 <= k <= t.len() && #[trigger] repeats(e, (n - 1) as nat, t.take(k)) && accepts(e, t.skip(k));
        lemma_repeats_prefix(e, (n - 1) as nat, t.take(k), m);
        let j = choose|j: int| 0 <= j <= k && #[trigger] repeats(e, m, t.take(k).take(j));
        assert(t.take(k).take(j) =~= t.take(j));
    }
}

/// The `AtLeast` count accepts exactly when some repetition count in `[min, bound]` does,
/// for any `bound` that reaches both `min` and the length of the text.
pub proof fn lemma_at_least_within(inner: Expr, min: usize, t: Seq<char>, bound: nat)
    requires
        min <= bound,
        t.len() <= bound,
    ensures
        accepts(Expr::Count(Box::new(inner), Count::AtLeast(min)), t) <==> exists|m: nat|
            min <= m <= bound && #[trigger] repeats(inner, m, t),
{
    lemma_accepts_count(inner, Count::AtLeast(min), t);
    if accepts(Expr::Count(Box::new(inner), Count::AtLeast(min)), t) {
        let n = choose|n: nat| count_allows(Count::AtLeast(min), n) && #[trigger] repeats(inner, n, t);
        lemma_repeats_bounded(inner, n, t, min as nat, bound);
    }
    if exists|m: nat| min <= m <= bound && #[trigger] repeats(inner, m, t) {
        let m = choose|m: nat| min <= m <= bound && #[trigger] repeats(inner, m, t);
        assert(count_allows(Count::AtLeast(min), m));
    }
}

/// The `AtLeast` count accepts exactly when some repetition count in `[min, min + |t|]` does:
/// it never needs more than `min` plus the text's length pieces, even when the inner
/// expression matches the empty text.
pub proof fn lemma_at_least_bounded(inner: Expr, min: usize, t: Seq<char>)
    ensures
        accepts(Expr::Count(Box::new(inner), Count::AtLeast(min)), t) <==> exists|m: nat|
            min <= m <= min + t.len() && #[trigger] repeats(inner, m, t),
{
    lemma_at_least_within(inner, min, t, (min + t.len()) as nat);
}

/// Widening the range of a counted repetition keeps every text it accepts.
pub proof fn lemma_range_widens(inner: Expr, a1: usize, b1: usize, a2: usize, b2: usize, t: Seq<char>)
    requires
        a2 <= a1,
        b1 <= b2,
        accepts(Expr::Count(Box::new(inner), Count::Range(a1, b1)), t),
    ensures
        accepts(Expr::Count(Box::new(inner), Count::Range(a2, b2)), t),
{
    lemma_accepts_count(inner, Count::Range(a1, b1), t);
    lemma_accepts_count(inner, Count::Range(a2, b2), t);
    let n = choose|n: nat| count_allows(Count::Range(a1, b1), n) && #[trigger] repeats(inner, n, t);
    assert(count_allows(Count::Range(a2, b2), n));
}

/// `n` pieces of a literal are exactly `n` copies of its character.
pub proof fn lemma_literal_repeats(c: char, n: nat, t: Seq<char>)
    ensures
        repeats(Expr::Literal(c), n, t) <==> t == Seq::new(n, |i: int| c),
    decreases n,
{
    let e = Expr::Literal(c);
    let run = Seq::new(n, |i: int| c);
    if n == 0 {
        lemma_repeats_zero(e, t);
        assert(run =~= Seq::<char>::empty());
        if t.len() == 0 {
            assert(t =~= run);
        }
    } else {
        let shorter = Seq::new((n - 1) as nat, |i: int| c);
        if repeats(e, n, t) {
            lemma_repeats_last(e, (n - 1) as nat, t);
            let k = choose|k: int|
                0 <= k <= t.len() && #[trigger] repeats(e, (n - 1) as nat, t.take(k)) && accepts(e, t.skip(k));
            lemma_literal_repeats(c, (n - 1) as nat, t.take(k));
            assert(t.skip(k) == seq![c]);
            assert(t =~= t.take(k) + t.skip(k));
            assert(t =~= run);
        }
        if t == run {
            lemma_literal_repeats(c, (n - 1) as nat, t.take(n - 1));
            assert(t.take(n - 1) =~= shorter);
            assert(t.skip(n - 1) =~= seq![c]);
            lemma_repeats_extend(e, (n - 1) as nat, t, n - 1);
        }
    }
}

/// A counted literal matches a run of its character exactly when the count allows the
/// run's length.
pub proof fn lemma_literal_count(c: char, count: Count, k: nat)
    ensures
        accepts(Expr::Count(Box::new(Expr::Literal(c)), count), Seq::new(k, |i: int| c)) <==> count_allows(count, k),
{
    let run = Seq::new(k, |i: int| c);
    lemma_accepts_count(Expr::Literal(c), count, run);
    lemma_literal_repeats(c, k, run);
    if accepts(Expr::Count(Box::new(Expr::Literal(c)), count), run) {
        let n = choose|n: nat| count_allows(count, n) && #[trigger] repeats(Expr::Literal(c), n, run);
        lemma_literal_repeats(c, n, run);
        assert(run.len() == n);
    }
}

/// A class of one range matches one character exactly when the character lies in the range.
pub proof fn lemma_range_class(start: char, end: char, c: char)
    ensures
        accepts(Expr::Class(seq![CharRange::Range(start, end)]), seq![c]) <==> (start <= c && c <= end),
{
    let ranges = seq![CharRange::Range(start, end)];
    if start <= c && c <= end {
        assert(in_range(ranges[0], c));
    }
}

} // verus!
