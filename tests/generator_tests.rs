use crossword::{generate_crossword, Comparator, CrosswordGenerator, GeneratorMode, Layout, Orientation, XY};

#[test]
fn input_order_builds_the_small_block() {
    let words = vec!["xab", "xyz"];
    let layout = generate_crossword(&words, GeneratorMode::InputOrder);
    assert_eq!(layout.render('_'), "xab\ny__\nz__");
    assert_eq!(layout.crossings_count(), 1);
}

#[test]
fn automatic_places_longest_first() {
    let words = vec!["ab", "xabcx"];
    let layout = generate_crossword(&words, GeneratorMode::Automatic);
    let placed: Vec<String> = layout.get_word_positions().iter().map(|w| w.word.clone()).collect();
    assert_eq!(placed, vec!["xabcx".to_string(), "ab".to_string()]);
    assert_eq!(layout.crossings_count(), 1);
}

#[test]
fn unplaceable_words_are_dropped() {
    let words = vec!["abc", "xyz"];
    let layout = generate_crossword(&words, GeneratorMode::InputOrder);
    assert_eq!(layout.get_word_positions().len(), 1);
    assert_eq!(layout.render('_'), "abc");
}

#[test]
fn comparators_decide_in_turn() {
    let mut small = Layout::new();
    small.insert_at("ab", XY::from((0, 0)), Orientation::Horiz).unwrap();
    let mut large = Layout::new();
    large.insert_at("abcd", XY::from((0, 0)), Orientation::Horiz).unwrap();
    let by_area = CrosswordGenerator::new(vec![Comparator::ByCrossings, Comparator::ByArea]);
    assert_eq!(by_area.compare(&small, &large), std::cmp::Ordering::Greater);
    let by_crossings = CrosswordGenerator::new(vec![Comparator::ByCrossings]);
    assert_eq!(by_crossings.compare(&small, &large), std::cmp::Ordering::Equal);
}

#[test]
fn input_order_places_exact_words() {
    let words = vec!["xab", "xyz"];
    let layout = generate_crossword(&words, GeneratorMode::InputOrder);
    let placed: Vec<(String, XY, bool)> = layout
        .get_word_positions()
        .iter()
        .map(|w| (w.word.clone(), w.pos, matches!(w.orientation, Orientation::Horiz)))
        .collect();
    assert_eq!(
        placed,
        vec![
            ("xab".to_string(), XY { x: 0, y: 0 }, true),
            ("xyz".to_string(), XY { x: 0, y: 0 }, false),
        ]
    );
    assert_eq!(layout.area(), 9);
}

#[test]
fn automatic_first_word_is_horizontal_and_ties_keep_order() {
    let words = vec!["ab", "cde", "fgh"];
    let layout = generate_crossword(&words, GeneratorMode::Automatic);
    let first = &layout.get_word_positions()[0];
    assert_eq!(first.word, "cde");
    assert!(matches!(first.orientation, Orientation::Horiz));
    assert_eq!(first.pos, XY { x: 0, y: 0 });
}
