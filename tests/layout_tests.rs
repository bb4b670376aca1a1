use crossword::{Layout, Orientation, XY};

fn xy(x: i32, y: i32) -> XY {
    XY::from((x, y))
}

#[test]
fn test_insert_and_display() {
    let mut layout = Layout::new();
    layout.insert_at("xab", xy(0, 0), Orientation::Horiz).unwrap();
    layout.insert_at("xyz", xy(0, 0), Orientation::Vert).unwrap();
    let actual = layout.render('_');
    let expected = "
            xab
            y__
            z__
        ";
    let expected = expected.trim().replace(" ", "");
    assert_eq!(actual, expected)
}

#[test]
fn test_insert_conflict() {
    let mut layout = Layout::new();
    let _ = layout.insert_at("xab", xy(0, 0), Orientation::Horiz);
    let _ = layout.insert_at("xyz", xy(2, 0), Orientation::Vert);
    let formatted = layout.render('_');
    let expected = "
            xa!
            __y
            __z
        ";
    let expected = expected.trim().replace(" ", "");
    assert_eq!(formatted, expected)
}

#[test]
fn test_count_crossings() {
    let mut layout = Layout::new();
    layout.insert_at("abc", xy(0, 0), Orientation::Horiz).unwrap();
    assert_eq!(layout.crossings_count(), 0);
    layout.insert_at("abc", xy(0, 0), Orientation::Vert).unwrap();
    assert_eq!(layout.crossings_count(), 1);
    layout.insert_at("cba", xy(2, 0), Orientation::Vert).unwrap();
    assert_eq!(layout.crossings_count(), 2);
    layout.insert_at("cba", xy(0, 2), Orientation::Horiz).unwrap();
    assert_eq!(layout.crossings_count(), 4);
    layout.insert_at("xabcx", xy(-1, 0), Orientation::Horiz).unwrap();
    assert_eq!(layout.crossings_count(), 7);
}

#[test]
fn test_layouts_produce_same_output() {
    let mut layout1 = Layout::new();
    layout1.insert_at("xab", xy(-9, 4), Orientation::Horiz).unwrap();
    layout1.insert_at("xyz", xy(-9, 4), Orientation::Vert).unwrap();
    let formatted1 = layout1.render('_');

    let mut layout2 = Layout::new();
    layout2.insert_at("xab", xy(5, -2), Orientation::Horiz).unwrap();
    layout2.insert_at("xyz", xy(5, -2), Orientation::Vert).unwrap();
    let formatted2 = layout2.render('_');

    assert_eq!(formatted1, formatted2)
}

#[test]
fn crossing_adds_one_and_disjoint_adds_none() {
    let mut layout = Layout::new();
    layout.insert_at("cat", xy(0, 0), Orientation::Horiz).unwrap();
    layout.insert_at("tea", xy(2, 0), Orientation::Vert).unwrap();
    assert_eq!(layout.crossings_count(), 1);
    layout.insert_at("dog", xy(10, 10), Orientation::Horiz).unwrap();
    assert_eq!(layout.crossings_count(), 1);
}

#[test]
fn mismatch_is_reported_and_marked() {
    let mut layout = Layout::new();
    layout.insert_at("ab", xy(0, 0), Orientation::Horiz).unwrap();
    assert!(layout.insert_at("cd", xy(1, 0), Orientation::Vert).is_err());
    assert_eq!(layout.render('.'), "a!\n.d");
}

#[test]
fn empty_layout_has_no_area_and_two_starts() {
    let layout = Layout::new();
    assert_eq!(layout.area(), 0);
    assert_eq!(layout.render('_'), "[]");
    let starts = layout.get_possible_start_positions("anything");
    assert_eq!(starts.len(), 2);
    assert_eq!(starts[0].0, xy(0, 0));
    assert!(matches!(starts[0].1, Orientation::Horiz));
    assert_eq!(starts[1].0, xy(0, 0));
    assert!(matches!(starts[1].1, Orientation::Vert));
}

#[test]
fn area_is_width_times_height() {
    let mut layout = Layout::new();
    layout.insert_at("abcd", xy(0, 0), Orientation::Horiz).unwrap();
    assert_eq!(layout.area(), 4);
    layout.insert_at("bxy", xy(1, 0), Orientation::Vert).unwrap();
    assert_eq!(layout.area(), 12);
}

#[test]
fn word_in_line_after_another_is_rejected() {
    let mut layout = Layout::new();
    layout.insert_at("DOG", xy(0, 0), Orientation::Horiz).unwrap();
    layout.insert_at("GNU", xy(2, 0), Orientation::Vert).unwrap();
    let starts = layout.get_possible_start_positions("CAT");
    assert!(!starts
        .iter()
        .any(|(p, o)| *p == xy(3, 0) && matches!(o, Orientation::Horiz)));
}

#[test]
fn candidates_cross_existing_letters() {
    let mut layout = Layout::new();
    layout.insert_at("xab", xy(0, 0), Orientation::Horiz).unwrap();
    let starts = layout.get_possible_start_positions("xyz");
    assert_eq!(starts.len(), 1);
    assert_eq!(starts[0].0, xy(0, 0));
    assert!(matches!(starts[0].1, Orientation::Vert));
    let sideways = layout.get_possible_start_positions("qq");
    assert!(sideways.is_empty());
}

#[test]
fn normalize_moves_to_origin_and_is_stable() {
    let mut layout = Layout::new();
    layout.insert_at("xab", xy(-9, 4), Orientation::Horiz).unwrap();
    layout.insert_at("xyz", xy(-9, 4), Orientation::Vert).unwrap();
    let once = layout.normalize();
    let words: Vec<(String, XY)> = once
        .get_word_positions()
        .iter()
        .map(|w| (w.word.clone(), w.pos))
        .collect();
    assert_eq!(words, vec![("xab".to_string(), xy(0, 0)), ("xyz".to_string(), xy(0, 0))]);
    let twice = once.normalize();
    let again: Vec<(String, XY)> = twice
        .get_word_positions()
        .iter()
        .map(|w| (w.word.clone(), w.pos))
        .collect();
    assert_eq!(words, again);
    assert_eq!(twice.crossings_count(), 1);
}

#[test]
fn translated_layouts_normalize_alike() {
    let mut a = Layout::new();
    a.insert_at("cat", xy(3, 7), Orientation::Horiz).unwrap();
    a.insert_at("tea", xy(5, 7), Orientation::Vert).unwrap();
    let mut b = Layout::new();
    b.insert_at("cat", xy(-20, 1), Orientation::Horiz).unwrap();
    b.insert_at("tea", xy(-18, 1), Orientation::Vert).unwrap();
    let a = a.normalize();
    let b = b.normalize();
    let pa: Vec<XY> = a.get_word_positions().iter().map(|w| w.pos).collect();
    let pb: Vec<XY> = b.get_word_positions().iter().map(|w| w.pos).collect();
    assert_eq!(pa, pb);
    assert_eq!(pa, vec![xy(0, 0), xy(2, 0)]);
}

#[test]
fn ids_follow_reading_order_and_are_shared() {
    let mut layout = Layout::new();
    layout.insert_at("xab", xy(0, 0), Orientation::Horiz).unwrap();
    layout.insert_at("xyz", xy(0, 0), Orientation::Vert).unwrap();
    layout.insert_at("bcd", xy(2, 0), Orientation::Vert).unwrap();
    layout.insert_at("zqd", xy(0, 2), Orientation::Horiz).unwrap();
    let ids: Vec<usize> = layout.get_words_with_ids().iter().map(|(_, id)| *id).collect();
    assert_eq!(ids, vec![1, 1, 2, 3]);
}

#[test]
fn equal_word_candidates_in_order() {
    let mut layout = Layout::new();
    layout.insert_at("bob", xy(0, 0), Orientation::Horiz).unwrap();
    let starts: Vec<(XY, bool)> = layout
        .get_possible_start_positions("bob")
        .iter()
        .map(|(p, o)| (*p, matches!(o, Orientation::Horiz)))
        .collect();
    assert_eq!(
        starts,
        vec![
            (xy(0, 0), true),
            (xy(0, 0), false),
            (xy(2, 0), false),
            (xy(0, 0), true),
            (xy(1, -1), false),
            (xy(0, 0), true),
            (xy(0, -2), false),
            (xy(2, -2), false),
        ]
    );
}
