use rzozowski_fuzz::positions::utf8_width;
use rzozowski_fuzz::{boundaries, in_shared_alphabet, pattern, reference_matches, tree, Bytes, CharRange, Count, Dialect, Regex};

fn literal(c: char) -> Box<Regex> {
    Box::new(Regex::Literal(c))
}

#[test]
fn text_reads_a_length_then_one_character_per_byte() {
    let data = [3, 0, 1, 2, 7];
    let mut bytes = Bytes::new(&data);
    assert_eq!(bytes.text(), "abc");
    // The fifth byte gives length 7, and the bytes past the end read as zero.
    assert_eq!(bytes.text(), "aaaaaaa");
    assert_eq!(bytes.text(), "");
}

#[test]
fn text_is_at_most_eight_characters() {
    let data = [8, 13, 13, 13, 13, 13, 13, 13, 13, 13, 13];
    let mut bytes = Bytes::new(&data);
    let text = bytes.text();
    assert_eq!(text, "xxxxxxxx");
    assert_eq!(text.chars().count(), 8);
    let mut mixed = Bytes::new(&[17, 6, 10, 12]);
    assert_eq!(mixed.text(), "\u{e9}\\\naaaaa");
}

#[test]
fn atoms_come_from_the_dialect_table() {
    assert_eq!(pattern(&mut Bytes::new(&[5]), Dialect::Shared, 0), ("\\[".to_string(), "[".to_string()));
    assert_eq!(pattern(&mut Bytes::new(&[8]), Dialect::Shared, 0), ("[a-c]".to_string(), "a".to_string()));
    assert_eq!(pattern(&mut Bytes::new(&[11]), Dialect::Shared, 0), ("a".to_string(), "a".to_string()));
    assert_eq!(pattern(&mut Bytes::new(&[11]), Dialect::Native, 0), ("\\d".to_string(), "0".to_string()));
    assert_eq!(pattern(&mut Bytes::new(&[13]), Dialect::Native, 0), ("\\s".to_string(), "\n".to_string()));
}

#[test]
fn patterns_concatenate_alternate_and_repeat() {
    assert_eq!(
        pattern(&mut Bytes::new(&[4, 0, 1]), Dialect::Shared, 1),
        ("(a)(b)".to_string(), "ab".to_string())
    );
    assert_eq!(
        pattern(&mut Bytes::new(&[5, 0, 1, 1]), Dialect::Shared, 1),
        ("(a|b)".to_string(), "b".to_string())
    );
    assert_eq!(
        pattern(&mut Bytes::new(&[6, 0, 1, 2]), Dialect::Shared, 1),
        ("(a)+".to_string(), "aaa".to_string())
    );
    assert_eq!(
        pattern(&mut Bytes::new(&[6, 3, 3]), Dialect::Shared, 1),
        ("(\u{e9}){0}".to_string(), String::new())
    );
    // A shape below 4 reads an atom from the next byte.
    assert_eq!(pattern(&mut Bytes::new(&[2, 7]), Dialect::Shared, 2), ("\\\\".to_string(), "\\".to_string()));
}

#[test]
fn pattern_reads_exactly_what_it_needs() {
    let data = [6, 0, 1, 2, 3, 0];
    let mut bytes = Bytes::new(&data);
    let _ = pattern(&mut bytes, Dialect::Shared, 1);
    // Four bytes went to the pattern; the fifth is the next text's length.
    assert_eq!(bytes.text(), "aaa");
}

#[test]
fn trees_carry_witnesses_unless_empty() {
    let (empty, witness) = tree(&mut Bytes::new(&[0]), 0);
    assert!(matches!(empty, Regex::Empty));
    assert!(witness.is_none());

    let (class, witness) = tree(&mut Bytes::new(&[6]), 0);
    assert!(matches!(class, Regex::Class(ref ranges) if ranges == &vec![CharRange::Single('b'), CharRange::Range('0', '2')]));
    assert_eq!(witness.as_deref(), Some("2"));

    let (reversed, witness) = tree(&mut Bytes::new(&[5, 1, 3, 2, 2]), 1);
    assert!(matches!(reversed, Regex::Count(_, Count::Range(3, 2))));
    assert!(witness.is_none());

    let (repeated, witness) = tree(&mut Bytes::new(&[5, 2, 1, 0, 2, 2]), 1);
    assert!(matches!(repeated, Regex::Count(ref inner, Count::AtLeast(1)) if matches!(**inner, Regex::Literal('a'))));
    assert_eq!(witness.as_deref(), Some("aaa"));
    assert!(reference_matches(&repeated, "aaa"));

    let (nullable, witness) = tree(&mut Bytes::new(&[5, 0, 0, 0, 0]), 1);
    assert!(matches!(nullable, Regex::Count(_, Count::Exact(0))));
    assert_eq!(witness.as_deref(), Some(""));
    assert!(reference_matches(&nullable, ""));
}

#[test]
fn or_of_trees_takes_the_witness_that_exists() {
    let (or, witness) = tree(&mut Bytes::new(&[3, 0, 2]), 1);
    assert!(matches!(or, Regex::Or(_, _)));
    assert_eq!(witness.as_deref(), Some("a"));
    let (concat, witness) = tree(&mut Bytes::new(&[4, 0, 2]), 1);
    assert!(matches!(concat, Regex::Concat(_, _)));
    assert!(witness.is_none());
    assert!(!reference_matches(&concat, "a"));
}

#[test]
fn zero_repetitions_of_nothing_match_the_empty_text() {
    for count in [Count::Exact(0), Count::Range(0, 0), Count::Range(0, 2)] {
        let repeated = Regex::Count(Box::new(Regex::Empty), count);
        assert!(reference_matches(&repeated, ""));
        assert!(!reference_matches(&repeated, "a"));
        let after = Regex::Concat(literal('a'), Box::new(repeated));
        assert!(reference_matches(&after, "a"));
    }
}

#[test]
fn nullable_operands_repeat_to_the_empty_text() {
    for count in [Count::Exact(1), Count::Range(1, 3), Count::AtLeast(1)] {
        let epsilon = Regex::Count(Box::new(Regex::Epsilon), count);
        assert!(reference_matches(&epsilon, ""));
        let optional = Regex::Count(
            Box::new(Regex::Or(Box::new(Regex::Epsilon), literal('a'))),
            count,
        );
        assert!(reference_matches(&optional, ""));
    }
}

#[test]
fn reversed_range_matches_nothing() {
    let repeated = Regex::Count(Box::new(Regex::Epsilon), Count::Range(1, 0));
    assert!(!reference_matches(&repeated, ""));
    let zero_max = Regex::Count(literal('a'), Count::Range(0, 0));
    assert!(!reference_matches(&zero_max, "a"));
    assert!(reference_matches(&zero_max, ""));
}

#[test]
fn nested_lower_bounds_keep_their_gaps() {
    let inner = Regex::Count(literal('a'), Count::AtLeast(2));
    let outer = Regex::Count(Box::new(inner), Count::AtLeast(0));
    assert!(reference_matches(&outer, ""));
    assert!(!reference_matches(&outer, "a"));
    assert!(reference_matches(&outer, "aa"));
    assert!(reference_matches(&outer, "aaa"));

    let twice = Regex::Count(literal('a'), Count::AtLeast(2));
    let deep = Regex::Count(
        Box::new(Regex::Count(Box::new(twice), Count::AtLeast(2))),
        Count::AtLeast(2),
    );
    assert!(!reference_matches(&deep, &"a".repeat(7)));
    assert!(reference_matches(&deep, &"a".repeat(8)));
    assert!(reference_matches(&deep, &"a".repeat(12)));
}

#[test]
fn nullable_star_inside_lower_bound_matches_any_run() {
    let star = Regex::Count(literal('a'), Count::AtLeast(0));
    let regex = Regex::Count(Box::new(Regex::Count(Box::new(star), Count::AtLeast(2))), Count::AtLeast(0));
    assert!(reference_matches(&regex, &"a".repeat(8)));
    assert!(reference_matches(&regex, ""));
    assert!(!reference_matches(&regex, "ab"));
}

#[test]
fn classes_and_literals_match_one_character() {
    let class = Regex::Class(vec![CharRange::Single('x'), CharRange::Range('0', '9')]);
    assert!(reference_matches(&class, "x"));
    assert!(reference_matches(&class, "7"));
    assert!(!reference_matches(&class, "y"));
    assert!(!reference_matches(&class, "77"));
    assert!(!reference_matches(&class, ""));
    assert!(!reference_matches(&Regex::Class(vec![]), "a"));
    assert!(reference_matches(&Regex::Literal('\u{1f495}'), "\u{1f495}"));
    assert!(!reference_matches(&Regex::Literal('a'), "aa"));
    assert!(reference_matches(&Regex::Epsilon, ""));
    assert!(!reference_matches(&Regex::Empty, ""));
}

#[test]
fn concatenation_tries_every_split() {
    let regex = Regex::Concat(
        Box::new(Regex::Count(literal('a'), Count::AtLeast(0))),
        Box::new(Regex::Concat(literal('a'), literal('b'))),
    );
    assert!(reference_matches(&regex, "aaab"));
    assert!(reference_matches(&regex, "ab"));
    assert!(!reference_matches(&regex, "b"));
}

#[test]
fn boundaries_are_byte_offsets_of_characters() {
    assert_eq!(boundaries("a\u{e9}\u{1f495}x"), vec![0, 1, 3, 7, 8]);
    assert_eq!(boundaries(""), vec![0]);
}

#[test]
fn counted_literal_matches_runs_of_allowed_length() {
    let regex = Regex::Count(literal('a'), Count::Range(2, 4));
    for length in 0..8 {
        assert_eq!(reference_matches(&regex, &"a".repeat(length)), (2..=4).contains(&length));
    }
    let exact = Regex::Count(literal('b'), Count::Exact(3));
    assert!(reference_matches(&exact, "bbb"));
    assert!(!reference_matches(&exact, "bb"));
    assert!(!reference_matches(&exact, "bba"));
}

#[test]
fn single_range_class_compares_scalars() {
    let class = Regex::Class(vec![CharRange::Range('c', 'f')]);
    assert!(reference_matches(&class, "c"));
    assert!(reference_matches(&class, "f"));
    assert!(!reference_matches(&class, "b"));
    assert!(!reference_matches(&class, "g"));
    let reversed = Regex::Class(vec![CharRange::Range('f', 'c')]);
    assert!(!reference_matches(&reversed, "d"));
}

#[test]
fn repeat_concatenates_copies() {
    assert_eq!(rzozowski_fuzz::strings::repeat("ab", 3), "ababab");
    assert_eq!(rzozowski_fuzz::strings::repeat("\u{e9}", 0), "");
}

#[test]
fn utf8_width_counts_encoded_bytes() {
    assert_eq!(utf8_width('a'), 1);
    assert_eq!(utf8_width('\u{e9}'), 2);
    assert_eq!(utf8_width('\u{20ac}'), 3);
    assert_eq!(utf8_width('\u{1f495}'), 4);
}

#[test]
fn shared_alphabet_is_letters_digits_and_operators() {
    assert!(in_shared_alphabet("a(b|c9)*+?Z"));
    assert!(in_shared_alphabet(""));
    assert!(!in_shared_alphabet("a.b"));
    assert!(!in_shared_alphabet("[ab]"));
    assert!(!in_shared_alphabet("\u{e9}"));
}

#[test]
fn huge_lower_bounds_are_answered() {
    let huge = Regex::Count(literal('a'), Count::AtLeast(usize::MAX));
    assert!(!reference_matches(&huge, "a"));
    let unreachable = Regex::Concat(Box::new(Regex::Empty), Box::new(Regex::Count(literal('a'), Count::AtLeast(usize::MAX))));
    assert!(!reference_matches(&unreachable, "a"));
}

#[test]
fn widening_a_range_keeps_matches() {
    let narrow = Regex::Count(literal('a'), Count::Range(2, 3));
    let wide = Regex::Count(literal('a'), Count::Range(1, 5));
    for length in 0..7 {
        let text = "a".repeat(length);
        if reference_matches(&narrow, &text) {
            assert!(reference_matches(&wide, &text));
        }
    }
    assert!(reference_matches(&wide, "a"));
    assert!(!reference_matches(&narrow, "a"));
}

#[test]
fn dialects_stop_at_the_same_byte() {
    let data = [6, 12, 8, 1, 5];
    let mut shared = Bytes::new(&data);
    let mut native = Bytes::new(&data);
    assert_eq!(pattern(&mut shared, Dialect::Shared, 1), ("(b){2,}".to_string(), "bbb".to_string()));
    assert_eq!(pattern(&mut native, Dialect::Native, 1), ("(\\w){2,}".to_string(), "___".to_string()));
    assert_eq!(shared.text(), native.text());
}

#[test]
fn readers_meeting_the_same_bytes_agree() {
    let first = [5, 0, 1, 1, 2, 2, 4];
    let second = [9, 9, 5, 0, 1, 1, 2, 2, 4];
    let mut a = Bytes::new(&first);
    let mut b = Bytes::new(&second);
    let _ = b.text();
    let _ = b.text();
    let (tree_a, witness_a) = tree(&mut a, 2);
    let (tree_b, witness_b) = tree(&mut b, 2);
    assert_eq!(format!("{tree_a:?}"), format!("{tree_b:?}"));
    assert_eq!(witness_a, witness_b);
    assert_eq!(a.text(), b.text());
}

#[test]
fn generated_parentheses_are_balanced() {
    for seed in 0u8..=255 {
        let data: Vec<u8> = (0..64u32).map(|i| seed.wrapping_mul(31).wrapping_add((i * 17) as u8)).collect();
        for dialect in [Dialect::Shared, Dialect::Native] {
            let (pattern_text, _) = pattern(&mut Bytes::new(&data), dialect, 3);
            let mut open: i64 = 0;
            for c in pattern_text.chars() {
                if c == '(' {
                    open += 1;
                } else if c == ')' {
                    open -= 1;
                }
                assert!(open >= 0, "{pattern_text}");
            }
            assert_eq!(open, 0, "{pattern_text}");
        }
    }
}

#[test]
fn a_counted_group_is_written_with_its_quantifier() {
    // Shape 6 is a counted group, the inner atom `a`, then quantifier 8 (`{2,}`) with a
    // repetition byte of 1, giving three copies of the witness.
    let data = [6, 0, 8, 1];
    let (pattern_text, witness) = pattern(&mut Bytes::new(&data), Dialect::Shared, 1);
    assert_eq!(pattern_text, "(a){2,}");
    assert_eq!(witness, "aaa");
}
