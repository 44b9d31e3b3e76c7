use rzozowski_fuzz::{pattern, reference_matches, tree, Bytes, CharRange, Count, Dialect, Regex};

#[test]
fn generated_patterns_are_valid_and_shared_witnesses_match() {
    for first in 0..=u8::MAX {
        let input = [first, 4, 5, 7, 8, 3, 0, 2, 9, 6, 1, 4, 0, 5, 2, 1];
        let (shared, witness) = pattern(&mut Bytes::new(&input), Dialect::Shared, 3);
        let reference = regex::Regex::new(&format!(r"\A(?:{shared})\z")).unwrap();
        assert!(reference.is_match(&witness), "{shared:?}, {witness:?}");
        assert!(rzozowski::Regex::new(&shared).is_ok(), "{shared:?}");

        let (native, _) = pattern(&mut Bytes::new(&input), Dialect::Native, 3);
        assert!(rzozowski::Regex::new(&native).is_ok(), "{native:?}");

        let mut bytes = Bytes::new(&input);
        let (tree, tree_witness) = tree(&mut bytes, 3);
        if let Some(tree_witness) = tree_witness {
            assert!(reference_matches(&tree, &tree_witness));
        }
        assert!(bytes.text().chars().count() <= 8);
    }
}

#[test]
fn reference_matcher_handles_nullable_repetitions_and_unicode_splits() {
    let optional_a = Regex::Or(Box::new(Regex::Epsilon), Box::new(Regex::Literal('a')));
    let twice = Regex::Count(Box::new(optional_a), Count::Exact(2));
    for text in ["", "a", "aa"] {
        assert!(reference_matches(&twice, text));
    }
    assert!(!reference_matches(&twice, "aaa"));
    let at_least_twice = Regex::Count(Box::new(Regex::Literal('a')), Count::AtLeast(2));
    assert!(!reference_matches(&at_least_twice, "a"));
    assert!(reference_matches(&at_least_twice, "aaa"));

    let unicode = Regex::Concat(
        Box::new(Regex::Literal('é')),
        Box::new(Regex::Class(vec![CharRange::Range('a', 'c')])),
    );
    assert!(reference_matches(&unicode, "éc"));
    assert!(!reference_matches(&unicode, "é"));
}
