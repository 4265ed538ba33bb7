use seggrep::{decompose, grep, keyword_offsets, Keyword, Pattern, Segment};

fn rebuild(segments: &[Segment]) -> String {
    let mut s = String::new();
    for seg in segments {
        match seg {
            Segment::Text(t) => s.push_str(t),
            Segment::Keyword(k) => s.push_str(k.text),
        }
    }
    s
}

#[test]
fn text_match_should_work() {
    let r = Pattern::new(r"一只").unwrap();
    let input = "这里有一只鸟,那里有一只鱼。";
    let v = grep(&r, input);
    let segments = v.unwrap();
    assert_eq!(5, segments.len());
    assert_eq!(Segment::Text("这里有"), segments[0]);
    assert_eq!(
        Segment::Keyword(Keyword {
            text: "一只",
            char_start: 4
        }),
        segments[1]
    );
    assert_eq!(Segment::Text("鸟,那里有"), segments[2]);
    assert_eq!(
        Segment::Keyword(Keyword {
            text: "一只",
            char_start: 11
        }),
        segments[3]
    );
    assert_eq!(Segment::Text("鱼。"), segments[4]);
}

#[test]
fn regex_match_should_work() {
    let r = Pattern::new(r"一\w{2}").unwrap();
    let input = "这里有一只鸟,那里有一只鱼。";
    let v = grep(&r, input);
    let segments = v.unwrap();
    assert_eq!(5, segments.len());
    assert_eq!(Segment::Text("这里有"), segments[0]);
    assert_eq!(
        Segment::Keyword(Keyword {
            text: "一只鸟",
            char_start: 4
        }),
        segments[1]
    );
    assert_eq!(Segment::Text(",那里有"), segments[2]);
    assert_eq!(
        Segment::Keyword(Keyword {
            text: "一只鱼",
            char_start: 11
        }),
        segments[3]
    );
    assert_eq!(Segment::Text("。"), segments[4]);
}

#[test]
fn no_match_gives_none() {
    let r = Pattern::new(r"cat").unwrap();
    assert_eq!(None, grep(&r, "a dog and a bird"));
    assert_eq!(None, decompose(&vec![], "a dog and a bird"));
    assert_eq!(None, decompose(&vec![], ""));
}

#[test]
fn match_at_start_has_no_leading_text() {
    let r = Pattern::new(r"ab").unwrap();
    let segments = grep(&r, "abcd").unwrap();
    assert_eq!(
        vec![
            Segment::Keyword(Keyword { text: "ab", char_start: 1 }),
            Segment::Text("cd"),
        ],
        segments
    );
}

#[test]
fn multibyte_match_at_start_is_offset_one() {
    let segments = decompose(&vec![(0, 6)], "一只鸟").unwrap();
    assert_eq!(
        vec![
            Segment::Keyword(Keyword { text: "一只", char_start: 1 }),
            Segment::Text("鸟"),
        ],
        segments
    );
}

#[test]
fn match_at_end_has_no_trailing_text() {
    let r = Pattern::new(r"鱼。").unwrap();
    let segments = grep(&r, "那里有一只鱼。").unwrap();
    assert_eq!(
        vec![
            Segment::Text("那里有一只"),
            Segment::Keyword(Keyword { text: "鱼。", char_start: 6 }),
        ],
        segments
    );
}

#[test]
fn whole_line_match_is_one_segment() {
    let r = Pattern::new(r"^.*$").unwrap();
    let segments = grep(&r, "鸟鱼").unwrap();
    assert_eq!(vec![Segment::Keyword(Keyword { text: "鸟鱼", char_start: 1 })], segments);
}

#[test]
fn adjacent_matches_have_no_text_between() {
    let r = Pattern::new(r"ab").unwrap();
    let segments = grep(&r, "xabab").unwrap();
    assert_eq!(
        vec![
            Segment::Text("x"),
            Segment::Keyword(Keyword { text: "ab", char_start: 2 }),
            Segment::Keyword(Keyword { text: "ab", char_start: 4 }),
        ],
        segments
    );
}

#[test]
fn adjacent_ranges_from_decompose() {
    let segments = decompose(&vec![(0, 3), (3, 6), (9, 12)], "一只鸟鱼").unwrap();
    assert_eq!(
        vec![
            Segment::Keyword(Keyword { text: "一", char_start: 1 }),
            Segment::Keyword(Keyword { text: "只", char_start: 2 }),
            Segment::Text("鸟"),
            Segment::Keyword(Keyword { text: "鱼", char_start: 4 }),
        ],
        segments
    );
}

#[test]
fn segments_rebuild_the_line() {
    let r = Pattern::new(r"[a-z]+").unwrap();
    let input = "été 12 naïve ça, ok";
    let segments = grep(&r, input).unwrap();
    assert_eq!(input, rebuild(&segments));
    let r = Pattern::new(r"一\w{2}").unwrap();
    let input = "这里有一只鸟,那里有一只鱼。";
    assert_eq!(input, rebuild(&grep(&r, input).unwrap()));
}

#[test]
fn offsets_count_characters_not_bytes() {
    let r = Pattern::new(r"b").unwrap();
    let input = "éb€b𝄞b";
    let segments = grep(&r, input).unwrap();
    assert_eq!(vec![2, 4, 6], keyword_offsets(&segments));
}

#[test]
fn offsets_increase_by_match_length() {
    let r = Pattern::new(r"\d+").unwrap();
    let input = "12345 ab 67 8";
    let segments = grep(&r, input).unwrap();
    let mut prev_end = 0;
    for seg in &segments {
        if let Segment::Keyword(k) = seg {
            assert!(k.char_start >= prev_end + 1);
            prev_end = k.char_start + k.text.chars().count() - 1;
        }
    }
    assert_eq!(vec![1, 10, 13], keyword_offsets(&segments));
}

#[test]
fn keyword_offsets_skip_text() {
    let segments = vec![
        Segment::Text("x"),
        Segment::Keyword(Keyword { text: "ab", char_start: 2 }),
        Segment::Text("yy"),
        Segment::Keyword(Keyword { text: "c", char_start: 6 }),
    ];
    assert_eq!(vec![2, 6], keyword_offsets(&segments));
    assert_eq!(Vec::<usize>::new(), keyword_offsets(&vec![Segment::Text("plain")]));
}

#[test]
fn empty_matches_become_empty_keywords() {
    let r = Pattern::new(r"x*").unwrap();
    let segments = grep(&r, "ab").unwrap();
    assert_eq!(
        vec![
            Segment::Keyword(Keyword { text: "", char_start: 1 }),
            Segment::Text("a"),
            Segment::Keyword(Keyword { text: "", char_start: 2 }),
            Segment::Text("b"),
            Segment::Keyword(Keyword { text: "", char_start: 3 }),
        ],
        segments
    );
}

#[test]
fn invalid_pattern_is_refused() {
    assert!(Pattern::new(r"(unclosed").is_none());
    assert!(Pattern::new(r"一\w{2}").is_some());
}
