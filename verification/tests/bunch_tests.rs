use discord_utils::MsgBunch;
use discord_utils::MsgBunchBuilder;
use discord_utils::UnsplittableSection;
use discord_utils::MSG_LIMIT;

fn finished_chunks(builder: MsgBunchBuilder) -> Vec<String> {
    builder.build().expect("no unsplittable section").into_inner()
}

#[test]
fn limit_is_exposed() {
    assert_eq!(MSG_LIMIT, 2000);
}

#[test]
fn fresh_builder_yields_one_empty_chunk() {
    let b = MsgBunch::builder();
    let chunks = finished_chunks(b);
    assert_eq!(chunks, vec![String::new()]);
}

#[test]
fn add_string_within_limit_stays_in_one_chunk() {
    let mut b = MsgBunchBuilder::new();
    b.add_string("hello, ");
    b.add_string("world");
    let chunks = finished_chunks(b);
    assert_eq!(chunks, vec!["hello, world".to_owned()]);
}

#[test]
fn add_string_splits_at_exactly_the_limit() {
    // A single string of exactly MSG_LIMIT + 5 characters gives two
    // chunks, the first of length MSG_LIMIT and the second of length 5.
    let mut b = MsgBunchBuilder::new();
    let s = "x".repeat(MSG_LIMIT + 5);
    b.add_string(&s);
    let chunks = finished_chunks(b);
    assert_eq!(chunks.len(), 2);
    assert_eq!(chunks[0].chars().count(), MSG_LIMIT);
    assert_eq!(chunks[1].chars().count(), 5);
    assert_eq!(chunks.concat(), s);
}

#[test]
fn add_string_counts_scalar_values_not_bytes() {
    // Two-byte characters: splitting must happen at character boundaries
    // and the limit is counted in scalar values.
    let mut b = MsgBunchBuilder::new();
    let s = "é".repeat(MSG_LIMIT + 3);
    b.add_string(&s);
    let chunks = finished_chunks(b);
    assert_eq!(chunks.len(), 2);
    assert_eq!(chunks[0].chars().count(), MSG_LIMIT);
    assert_eq!(chunks[1].chars().count(), 3);
    assert_eq!(chunks.concat(), s);
}

#[test]
fn length_invariant_over_many_adds() {
    let mut b = MsgBunchBuilder::new();
    let piece = "y".repeat(700);
    for _ in 0..10 {
        b.add_string(&piece);
    }
    let chunks = finished_chunks(b);
    for c in &chunks {
        assert!(c.chars().count() <= MSG_LIMIT);
    }
    assert_eq!(chunks.concat(), "y".repeat(7000));
}

#[test]
fn section_state_is_reported_and_sections_do_not_nest() {
    let mut b = MsgBunchBuilder::new();
    assert!(!b.is_in_section());
    b.begin_section();
    assert!(b.is_in_section());
    // A second begin keeps the first section open.
    b.begin_section();
    b.add_string("a");
    assert!(b.is_in_section());
    b.end_section().unwrap();
    assert!(!b.is_in_section());
    // Ending with no section open does nothing.
    b.end_section().unwrap();
    let chunks = finished_chunks(b);
    assert_eq!(chunks, vec!["a".to_owned()]);
}

#[test]
fn section_that_fits_is_appended_to_the_open_chunk() {
    let mut b = MsgBunchBuilder::new();
    b.add_string("intro ");
    b.begin_section();
    b.add_string("kept ");
    b.add_string("together");
    b.end_section().unwrap();
    let chunks = finished_chunks(b);
    assert_eq!(chunks, vec!["intro kept together".to_owned()]);
}

#[test]
fn section_without_room_moves_whole_to_a_fresh_chunk() {
    let mut b = MsgBunchBuilder::new();
    let fill = "z".repeat(1990);
    b.add_string(&fill);
    b.begin_section();
    b.add_string("0123456789ABCDEF");
    b.end_section().unwrap();
    let chunks = finished_chunks(b);
    assert_eq!(chunks.len(), 2);
    assert_eq!(chunks[0], fill);
    assert_eq!(chunks[1], "0123456789ABCDEF");
}

#[test]
fn oversized_section_splits_after_default_cut_characters() {
    let mut b = MsgBunchBuilder::new();
    b.add_string("intro ");
    b.begin_section();
    let long = "word, ".repeat(500);
    b.add_string(&long);
    b.end_section().unwrap();
    let chunks = finished_chunks(b);
    assert_eq!(chunks[0], "intro ");
    assert!(chunks.len() > 2);
    for c in &chunks {
        assert!(c.chars().count() <= MSG_LIMIT);
    }
    for c in &chunks[1..chunks.len() - 1] {
        assert!(c.ends_with(','));
    }
    let mut expected = "intro ".to_owned();
    expected.push_str(&long);
    assert_eq!(chunks.concat(), expected);
}

#[test]
fn oversized_section_without_cut_points_fails() {
    let mut b = MsgBunchBuilder::new();
    b.begin_section();
    let s = "a".repeat(MSG_LIMIT + 1);
    b.add_string(&s);
    assert_eq!(b.end_section(), Err(UnsplittableSection));
    // The builder is untouched: the section is still open, and a
    // predicate that accepts every character lets it close.
    assert!(b.is_in_section());
    b.end_section_with(|_| true).unwrap();
    let chunks = finished_chunks(b);
    assert_eq!(chunks.concat(), s);
    for c in &chunks {
        assert!(c.chars().count() <= MSG_LIMIT);
    }
}

#[test]
fn unsplittable_section_fails_build_too() {
    let mut b = MsgBunchBuilder::new();
    b.begin_section();
    let s = "b".repeat(MSG_LIMIT + 100);
    b.add_string(&s);
    assert_eq!(b.build().unwrap_err(), UnsplittableSection);
}

#[test]
fn end_section_with_custom_predicate() {
    let mut b = MsgBunchBuilder::new();
    b.begin_section();
    let s = "ab|".repeat(1000);
    b.add_string(&s);
    b.end_section_with(|c| c == '|').unwrap();
    let chunks = finished_chunks(b);
    assert_eq!(chunks[0], "");
    assert!(chunks.len() > 2);
    for c in &chunks {
        assert!(c.chars().count() <= MSG_LIMIT);
    }
    for c in &chunks[1..chunks.len() - 1] {
        assert!(c.ends_with('|'));
    }
    assert_eq!(chunks.concat(), s);
}

#[test]
fn counter_tracks_remainder_after_a_multi_chunk_split() {
    let mut b = MsgBunchBuilder::new();
    b.begin_section();
    let s = "word, ".repeat(400);
    b.add_string(&s);
    b.end_section().unwrap();
    // The remainder chunk is far below the limit, so a small add must
    // join it rather than open another chunk.
    b.add_string("tail");
    let chunks = finished_chunks(b);
    // The fresh builder's empty open chunk stays in front of the pieces.
    assert_eq!(chunks.len(), 3);
    assert_eq!(chunks[0], "");
    let mut expected = s.clone();
    expected.push_str("tail");
    assert_eq!(chunks.concat(), expected);
    for c in &chunks {
        assert!(c.chars().count() <= MSG_LIMIT);
    }
}

#[test]
fn add_lines_keeps_lines_whole() {
    let mut b = MsgBunchBuilder::new();
    b.add_lines("line1\nline2\nline3\n").unwrap();
    let chunks = finished_chunks(b);
    // Three short lines all land in the single open chunk.
    assert_eq!(chunks, vec!["line1\nline2\nline3\n".to_owned()]);
}

#[test]
fn add_lines_appends_a_newline_to_an_unterminated_last_line() {
    let mut b = MsgBunchBuilder::new();
    b.add_lines("one\ntwo").unwrap();
    let chunks = finished_chunks(b);
    assert_eq!(chunks.concat(), "one\ntwo\n");
}

#[test]
fn add_lines_strips_carriage_returns_before_newlines() {
    let mut b = MsgBunchBuilder::new();
    b.add_lines("a\r\nb\n").unwrap();
    let chunks = finished_chunks(b);
    assert_eq!(chunks.concat(), "a\nb\n");
}

#[test]
fn add_lines_distributes_lines_across_chunks() {
    let mut b = MsgBunchBuilder::new();
    let line = "w".repeat(600);
    let mut text = String::new();
    for _ in 0..5 {
        text.push_str(&line);
        text.push('\n');
    }
    b.add_lines(&text).unwrap();
    let chunks = finished_chunks(b);
    assert_eq!(chunks.concat(), text);
    for c in &chunks {
        assert!(c.chars().count() <= MSG_LIMIT);
        // Lines are never torn: each chunk holds only whole lines.
        for part in c.split_terminator('\n') {
            assert_eq!(part, line);
        }
    }
}

#[test]
fn into_inner_and_default_builder() {
    let b = MsgBunchBuilder::default();
    let bunch = b.build().unwrap();
    assert_eq!(bunch.into_inner(), vec![String::new()]);
}
