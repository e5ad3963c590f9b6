use matcha_ecs_widgets::rich_text::{
    apply_text_transform, collapse_white_space_with_span_remap, resolved_content,
    try_resolved_content, PendingSpan,
};
use matcha_ecs_widgets::{TextTransform, WhiteSpace};

#[test]
fn apply_text_transform_uppercase_lowercase_capitalize() {
    assert_eq!(apply_text_transform("Hello World", TextTransform::NoTransform), "Hello World");
    assert_eq!(apply_text_transform("Hello World", TextTransform::Uppercase), "HELLO WORLD");
    assert_eq!(apply_text_transform("Hello World", TextTransform::Lowercase), "hello world");
    assert_eq!(
        apply_text_transform("hello   world", TextTransform::Capitalize),
        "Hello   World"
    );
    // Non-ASCII: uppercasing an accented character must not just no-op.
    assert_eq!(apply_text_transform("café", TextTransform::Uppercase), "CAFÉ");
    assert_eq!(apply_text_transform("CAFÉ", TextTransform::Lowercase), "café");
}

#[test]
fn collapse_white_space_merges_runs_into_a_single_space() {
    let collapse = |s: &str| collapse_white_space_with_span_remap::<()>(s, &[]).0;
    assert_eq!(collapse("hello   world"), "hello world");
    assert_eq!(collapse("hello\t\nworld"), "hello world");
    assert_eq!(collapse(" leading"), " leading");
    assert_eq!(collapse("trailing "), "trailing ");
    assert_eq!(collapse("no-runs-here"), "no-runs-here");
}

#[test]
fn collapse_white_space_with_span_remap_keeps_ranges_consistent_across_a_boundary() {
    // "hello " (span A, trailing space) + " world" (span B, leading space):
    // the two spaces at the join must collapse to exactly one, and both
    // spans' remapped ranges must stay non-overlapping and lose no
    // non-whitespace content.
    let text = "hello  world";
    let span_a = 0..6; // "hello " (includes the first of the two joining spaces)
    let span_b = 6..12; // " world" (includes the second joining space)
    let (collapsed, remapped) =
        collapse_white_space_with_span_remap(text, &[(span_a, "a"), (span_b, "b")]);

    assert_eq!(collapsed, "hello world");
    assert_eq!(remapped.len(), 2);
    let (a_range, a_payload) = &remapped[0];
    let (b_range, b_payload) = &remapped[1];
    assert_eq!(*a_payload, "a");
    assert_eq!(*b_payload, "b");
    assert_eq!(&collapsed[a_range.clone()], "hello ");
    assert_eq!(&collapsed[b_range.clone()], "world");
    assert!(a_range.end <= b_range.start, "spans must not overlap after remapping");
}

#[test]
fn collapse_white_space_with_span_remap_handles_a_span_entirely_inside_a_collapsed_run() {
    // A span covering only the second and third spaces of a 3-space run
    // (not the first) must remap to an empty range at the position right
    // after the single surviving space.
    let text = "a   b";
    let outer = 0..5; // whole string
    let inner_tail_of_run = 2..4; // the 2nd and 3rd spaces only
    let (collapsed, remapped) =
        collapse_white_space_with_span_remap(text, &[(outer, "outer"), (inner_tail_of_run, "inner")]);

    assert_eq!(collapsed, "a b");
    let (outer_range, _) = &remapped[0];
    let (inner_range, _) = &remapped[1];
    assert_eq!(&collapsed[outer_range.clone()], "a b");
    assert!(
        inner_range.is_empty(),
        "a span covering only already-collapsed whitespace must remap to empty"
    );
}

#[test]
fn capitalize_starts_a_word_after_any_whitespace() {
    assert_eq!(
        apply_text_transform("one\ttwo\nthree  four", TextTransform::Capitalize),
        "One\tTwo\nThree  Four"
    );
    assert_eq!(apply_text_transform("élan vital", TextTransform::Capitalize), "Élan Vital");
    // Only the first character of a word changes; the rest is kept as written.
    assert_eq!(apply_text_transform("mIXED case", TextTransform::Capitalize), "MIXED Case");
    // A character whose uppercase is several characters expands in place.
    assert_eq!(apply_text_transform("ßtraße", TextTransform::Capitalize), "SStraße");
    assert_eq!(apply_text_transform("", TextTransform::Capitalize), "");
}

#[test]
fn collapse_keeps_a_lone_run_as_one_space() {
    let collapse = |s: &str| collapse_white_space_with_span_remap::<()>(s, &[]).0;
    assert_eq!(collapse("   "), " ");
    assert_eq!(collapse(""), "");
    assert_eq!(collapse("\u{3000}x\u{a0}\u{a0}y"), " x y");
}

#[test]
fn collapse_leaves_no_two_spaces_in_a_row() {
    let collapse = |s: &str| collapse_white_space_with_span_remap::<()>(s, &[]).0;
    for s in ["a \t b", "  x  y  ", "\n\n\n", "é  ü", "x\r\n\r\ny"] {
        let out = collapse(s);
        assert!(!out.contains("  "), "{out:?}");
        assert!(out.len() <= s.len(), "collapsing never lengthens the text");
        let kept: String = s.chars().filter(|c| !c.is_whitespace()).collect();
        let out_kept: String = out.chars().filter(|c| !c.is_whitespace()).collect();
        assert_eq!(kept, out_kept, "non-whitespace characters survive in order");
    }
}

#[test]
fn an_offset_inside_a_character_maps_to_zero() {
    // "é" is two bytes; offset 1 falls inside it.
    let (collapsed, remapped) = collapse_white_space_with_span_remap("é  x", &[(1..5, ())]);
    assert_eq!(collapsed, "é x");
    assert_eq!(remapped[0].0, 0..4);
}

#[test]
fn remapped_offsets_are_monotone() {
    let text = "a  b   c d";
    let spans: Vec<(std::ops::Range<usize>, usize)> =
        (0..=text.len()).map(|i| (i..text.len(), i)).collect();
    let (_, remapped) = collapse_white_space_with_span_remap(text, &spans);
    for w in remapped.windows(2) {
        assert!(w[0].0.start <= w[1].0.start);
    }
}

fn spans() -> Vec<PendingSpan<u32>> {
    vec![
        PendingSpan { text: " big  ".to_string(), overrides: 1, text_transform: None },
        PendingSpan {
            text: "World".to_string(),
            overrides: 2,
            text_transform: Some(TextTransform::Lowercase),
        },
    ]
}

#[test]
fn resolved_content_pre_keeps_the_assembled_text_and_its_ranges() {
    let (text, ranges) = resolved_content("Hello", TextTransform::Uppercase, WhiteSpace::Pre, &spans());
    assert_eq!(text, "HELLO BIG  world");
    assert_eq!(ranges, vec![(5..11, 1), (11..16, 2)]);
}

#[test]
fn resolved_content_normal_collapses_once_over_the_whole_text() {
    let (text, ranges) =
        resolved_content("Hello", TextTransform::Uppercase, WhiteSpace::Normal, &spans());
    assert_eq!(text, "HELLO BIG world");
    assert_eq!(ranges, vec![(5..10, 1), (10..15, 2)]);
    assert_eq!(&text[ranges[1].0.clone()], "world");
}

#[test]
fn resolved_content_without_spans_is_the_transformed_content() {
    let none: Vec<PendingSpan<()>> = Vec::new();
    let (text, ranges) =
        resolved_content("a  b", TextTransform::Capitalize, WhiteSpace::Normal, &none);
    assert_eq!(text, "A B");
    assert!(ranges.is_empty());
}

#[test]
fn try_resolved_content_agrees_with_resolved_content() {
    let checked = try_resolved_content("Hello", TextTransform::Uppercase, WhiteSpace::Normal, &spans());
    assert_eq!(
        checked,
        Some(resolved_content("Hello", TextTransform::Uppercase, WhiteSpace::Normal, &spans()))
    );
}

#[test]
fn every_boundary_inside_a_run_lands_after_the_surviving_space() {
    let text = "ab \t\n cd";
    let spans: Vec<(std::ops::Range<usize>, ())> = (3..=6).map(|i| (i..i, ())).collect();
    let (collapsed, remapped) = collapse_white_space_with_span_remap(text, &spans);
    assert_eq!(collapsed, "ab cd");
    for (range, _) in &remapped {
        assert_eq!(*range, 3..3);
    }
}

#[test]
fn whitespace_is_the_unicode_white_space_set() {
    let collapse = |s: &str| collapse_white_space_with_span_remap::<()>(s, &[]).0;
    assert_eq!(collapse("a\u{2009}\u{2028}b"), "a b");
    assert_eq!(collapse("a\u{85}b"), "a b");
    // The Mongolian vowel separator and zero-width space are not whitespace.
    assert_eq!(collapse("a\u{180e}\u{200b}b"), "a\u{180e}\u{200b}b");
}
