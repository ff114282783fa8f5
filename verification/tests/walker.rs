use typst_languagetool::diagnostic::{Location, Suggestion};
use typst_languagetool::mapping::MapEntry;
use typst_languagetool::rules::Rules;
use typst_languagetool::source::{Source, World};
use typst_languagetool::syntax::{FileId, Span, SyntaxKind, SyntaxNode};
use typst_languagetool::text_builder::{Chunk, Segment};
use typst_languagetool::walker::convert;
use typst_languagetool::words::WordSet;

fn span(number: u64) -> Span {
    Span::new(FileId(0), number)
}

fn leaf(kind: SyntaxKind, text: &str, number: u64) -> SyntaxNode {
    SyntaxNode::leaf(kind, text, span(number))
}

fn inner(kind: SyntaxKind, children: Vec<SyntaxNode>, number: u64) -> SyntaxNode {
    SyntaxNode::inner(kind, children, span(number))
}

fn suggestion(start: usize, end: usize) -> Suggestion {
    Suggestion {
        start,
        end,
        message: String::from("message"),
        replacements: vec![String::from("other")],
        rule_description: String::from("description"),
        rule_id: String::from("RULE"),
    }
}

fn texts(chunks: &[Chunk]) -> Vec<String> {
    chunks.iter().map(|c| c.text.clone()).collect()
}

#[test]
fn whitespace_after_a_line_break_is_read_as_one_line_feed() {
    let root = inner(
        SyntaxKind::Other,
        vec![
            leaf(SyntaxKind::Text, "Hello", 2),
            leaf(SyntaxKind::Space, "   \n\t", 3),
            leaf(SyntaxKind::Text, "world.", 4),
        ],
        1,
    );
    let chunks = convert(&root, &Rules::new(), 1000);
    assert_eq!(texts(&chunks), vec![String::from("Hello\nworld.")]);
    assert_eq!(
        chunks[0].segments,
        vec![
            Segment::Text(String::from("Hello")),
            Segment::Encoded(String::from("   \n\t"), String::from("\n")),
            Segment::Text(String::from("world.")),
        ]
    );
    // The line feed stands for the whole whitespace.
    assert_eq!(chunks[0].mapping.chars[5], MapEntry { span: span(3), start: 0, end: 5 });
    assert_eq!(chunks[0].mapping.chars.len(), 12);
}

#[test]
fn whitespace_that_ends_with_the_line_break_is_read_as_it_stands() {
    let root = inner(
        SyntaxKind::Other,
        vec![
            leaf(SyntaxKind::Text, "a", 2),
            leaf(SyntaxKind::Space, " \n", 3),
            leaf(SyntaxKind::Text, "b", 4),
            leaf(SyntaxKind::Space, " ", 5),
            leaf(SyntaxKind::Text, "c", 6),
        ],
        1,
    );
    let chunks = convert(&root, &Rules::new(), 1000);
    assert_eq!(texts(&chunks), vec![String::from("a \nb c")]);
    assert_eq!(chunks[0].segments, vec![Segment::Text(String::from("a \nb c"))]);
}

#[test]
fn heading_is_set_apart_and_maps_back_to_its_text() {
    let root = inner(
        SyntaxKind::Other,
        vec![inner(SyntaxKind::Heading, vec![leaf(SyntaxKind::Text, "Intro", 3)], 2)],
        1,
    );
    let chunks = convert(&root, &Rules::new(), 1000);
    assert_eq!(texts(&chunks), vec![String::from("\n\nIntro\n\n")]);
    let mapping = &chunks[0].mapping;
    for i in [0, 1, 7, 8] {
        assert_eq!(mapping.chars[i], MapEntry::synthetic());
        assert!(mapping.chars[i].span.is_detached());
    }
    assert_eq!(mapping.chars[2], MapEntry { span: span(3), start: 0, end: 1 });
    assert_eq!(mapping.chars[6], MapEntry { span: span(3), start: 4, end: 5 });

    let source = Source::new(FileId(0), root).unwrap();
    let mut world = World::new();
    world.add(source);
    let source = world.source(FileId(0));
    let places = mapping.location(&suggestion(2, 7), &world, source, &WordSet::new());
    assert_eq!(places, vec![Location { file: FileId(0), start: 0, end: 5 }]);
    // The separators alone have no place.
    let places = mapping.location(&suggestion(0, 2), &world, source, &WordSet::new());
    assert_eq!(places, vec![]);
}

#[test]
fn formula_and_reference_are_read_as_placeholders() {
    let root = inner(
        SyntaxKind::Other,
        vec![
            leaf(SyntaxKind::Text, "See", 2),
            leaf(SyntaxKind::Space, " ", 3),
            inner(SyntaxKind::Ref, vec![leaf(SyntaxKind::Other, "@fig", 5)], 4),
            leaf(SyntaxKind::Space, " ", 6),
            inner(
                SyntaxKind::Equation,
                vec![
                    leaf(SyntaxKind::Other, "$", 8),
                    leaf(SyntaxKind::Text, "x", 9),
                    leaf(SyntaxKind::Other, "$", 10),
                ],
                7,
            ),
            leaf(SyntaxKind::Text, ".", 11),
        ],
        1,
    );
    let chunks = convert(&root, &Rules::new(), 1000);
    assert_eq!(texts(&chunks), vec![String::from("See X 0.")]);
    assert_eq!(
        chunks[0].segments,
        vec![
            Segment::Text(String::from("See ")),
            Segment::Encoded(String::new(), String::from("X")),
            Segment::Markup(String::from("@fig")),
            Segment::Text(String::from(" ")),
            Segment::Encoded(String::new(), String::from("0")),
            Segment::Markup(String::from("$x$")),
            Segment::Text(String::from(".")),
        ]
    );
    // A match on the placeholder is placed on the whole formula.
    let mapping = &chunks[0].mapping;
    let source = Source::new(FileId(0), root).unwrap();
    let mut world = World::new();
    world.add(source);
    let places = mapping.location(&suggestion(6, 7), &world, None, &WordSet::new());
    assert_eq!(places, vec![Location { file: FileId(0), start: 9, end: 12 }]);
}

#[test]
fn function_calls_follow_the_rules() {
    // #table[a][b] with a caption: [c]
    let root = inner(
        SyntaxKind::Other,
        vec![inner(
            SyntaxKind::FuncCall,
            vec![
                leaf(SyntaxKind::Other, "table", 3),
                inner(
                    SyntaxKind::ContentBlock,
                    vec![
                        leaf(SyntaxKind::Other, "[", 5),
                        leaf(SyntaxKind::Text, "a", 6),
                        leaf(SyntaxKind::Other, "]", 7),
                    ],
                    4,
                ),
                inner(
                    SyntaxKind::ContentBlock,
                    vec![
                        leaf(SyntaxKind::Other, "[", 9),
                        leaf(SyntaxKind::Text, "b", 10),
                        leaf(SyntaxKind::Other, "]", 11),
                    ],
                    8,
                ),
                inner(
                    SyntaxKind::Named,
                    vec![
                        leaf(SyntaxKind::Other, "caption", 13),
                        leaf(SyntaxKind::Other, ":", 14),
                        inner(
                            SyntaxKind::ContentBlock,
                            vec![leaf(SyntaxKind::Text, "c", 16)],
                            15,
                        ),
                    ],
                    12,
                ),
            ],
            2,
        )],
        1,
    );
    let chunks = convert(&root, &Rules::new(), 1000);
    assert_eq!(texts(&chunks), vec![String::from("a\nb\n\n\nc\n\n\n")]);
}

#[test]
fn text_in_a_function_call_is_hidden_outside_of_blocks() {
    let root = inner(
        SyntaxKind::Other,
        vec![
            leaf(SyntaxKind::Text, "a", 2),
            inner(
                SyntaxKind::FuncCall,
                vec![
                    leaf(SyntaxKind::Other, "emph", 4),
                    leaf(SyntaxKind::Text, "hidden", 5),
                    leaf(SyntaxKind::Space, " ", 6),
                    inner(SyntaxKind::ContentBlock, vec![leaf(SyntaxKind::Text, "b", 8)], 7),
                ],
                3,
            ),
        ],
        1,
    );
    let chunks = convert(&root, &Rules::new(), 1000);
    assert_eq!(texts(&chunks), vec![String::from("ab")]);
    assert_eq!(
        chunks[0].segments,
        vec![
            Segment::Text(String::from("a")),
            Segment::Markup(String::from("emphhidden ")),
            Segment::Text(String::from("b")),
        ]
    );
}

#[test]
fn list_items_shorthands_and_quotes() {
    let root = inner(
        SyntaxKind::Other,
        vec![inner(
            SyntaxKind::ListItem,
            vec![
                leaf(SyntaxKind::ListMarker, "+", 3),
                leaf(SyntaxKind::Space, " ", 4),
                leaf(SyntaxKind::SmartQuote, "\"", 5),
                leaf(SyntaxKind::Text, "a", 6),
                leaf(SyntaxKind::Shorthand, "~", 7),
                leaf(SyntaxKind::Text, "b", 8),
                leaf(SyntaxKind::Shorthand, "--", 9),
            ],
            2,
        )],
        1,
    );
    let chunks = convert(&root, &Rules::new(), 1000);
    assert_eq!(texts(&chunks), vec![String::from("\n\n- \"a b--\n\n")]);
}

fn paragraphs() -> SyntaxNode {
    inner(
        SyntaxKind::Other,
        vec![
            leaf(SyntaxKind::Text, "One", 2),
            leaf(SyntaxKind::Space, " ", 3),
            leaf(SyntaxKind::Text, "two.", 4),
            leaf(SyntaxKind::Parbreak, "\n\n\n", 5),
            leaf(SyntaxKind::Text, "Three.", 6),
            leaf(SyntaxKind::Parbreak, "\n\n", 7),
            leaf(SyntaxKind::Text, "Four.", 8),
        ],
        1,
    )
}

#[test]
fn chunks_end_only_at_paragraph_breaks() {
    let root = paragraphs();
    // Without a limit that is reached, all is one chunk.
    let chunks = convert(&root, &Rules::new(), 1000);
    assert_eq!(texts(&chunks), vec![String::from("One two.\n\nThree.\n\nFour.")]);
    // With the lowest limit every paragraph break ends a chunk.
    let chunks = convert(&root, &Rules::new(), 0);
    assert_eq!(
        texts(&chunks),
        vec![String::from("One two.\n\n"), String::from("Three.\n\n"), String::from("Four.")]
    );
    // A chunk may exceed the limit by up to a paragraph: ten characters
    // are reached only after the first break, eighteen after the second.
    let chunks = convert(&root, &Rules::new(), 10);
    assert_eq!(
        texts(&chunks),
        vec![String::from("One two.\n\nThree.\n\n"), String::from("Four.")]
    );
    let chunks = convert(&root, &Rules::new(), 9);
    assert_eq!(
        texts(&chunks),
        vec![String::from("One two.\n\n"), String::from("Three.\n\nFour.")]
    );
    let chunks = convert(&root, &Rules::new(), 7);
    assert_eq!(
        texts(&chunks),
        vec![String::from("One two.\n\n"), String::from("Three.\n\n"), String::from("Four.")]
    );
    for limit in 0..30 {
        let chunks = convert(&root, &Rules::new(), limit);
        let all: String = texts(&chunks).concat();
        assert_eq!(all, "One two.\n\nThree.\n\nFour.");
        for chunk in &chunks[..chunks.len() - 1] {
            assert!(chunk.text.ends_with("\n\n"));
        }
    }
}

#[test]
fn markup_alone_gives_no_chunk() {
    let root = inner(
        SyntaxKind::Other,
        vec![
            leaf(SyntaxKind::Other, "#let", 2),
            inner(
                SyntaxKind::FuncCall,
                vec![leaf(SyntaxKind::Other, "f", 4), leaf(SyntaxKind::Text, "x", 5)],
                3,
            ),
            leaf(SyntaxKind::Other, ";", 6),
        ],
        1,
    );
    assert_eq!(convert(&root, &Rules::new(), 1000).len(), 0);
    assert_eq!(convert(&root, &Rules::new(), 0).len(), 0);
}

#[test]
fn text_without_a_source_gives_no_chunk() {
    let root = SyntaxNode::inner(
        SyntaxKind::Other,
        vec![SyntaxNode::leaf(SyntaxKind::Text, "Hello", Span::detached())],
        Span::detached(),
    );
    assert_eq!(convert(&root, &Rules::new(), 1000).len(), 0);
}

#[test]
fn every_character_resolves_within_its_node() {
    let root = inner(
        SyntaxKind::Other,
        vec![
            inner(SyntaxKind::Heading, vec![leaf(SyntaxKind::Text, "Ünï", 3)], 2),
            leaf(SyntaxKind::Text, "aé", 4),
            leaf(SyntaxKind::Space, " \n ", 5),
            inner(
                SyntaxKind::Equation,
                vec![leaf(SyntaxKind::Other, "$y$", 7)],
                6,
            ),
            leaf(SyntaxKind::Parbreak, "\n\n", 8),
            leaf(SyntaxKind::Text, "z", 9),
        ],
        1,
    );
    let chunks = convert(&root, &Rules::new(), 3);
    assert_eq!(chunks.len(), 2);
    let source = Source::new(FileId(0), root).unwrap();
    let mut world = World::new();
    world.add(source);
    let source = world.source(FileId(0)).unwrap();
    let mut mapped = 0;
    for chunk in &chunks {
        assert_eq!(chunk.text.chars().count(), chunk.mapping.chars.len());
        for (i, entry) in chunk.mapping.chars.iter().enumerate() {
            if entry.span.is_detached() {
                continue;
            }
            mapped += 1;
            let node = source.find(entry.span).unwrap();
            let places =
                chunk.mapping.location(&suggestion(i, i + 1), &world, Some(source), &WordSet::new());
            assert_eq!(places.len(), 1);
            assert_eq!(places[0].file, FileId(0));
            assert!(node.start <= places[0].start);
            assert!(places[0].start <= places[0].end);
            assert!(places[0].end <= node.end);
        }
    }
    assert_eq!(mapped, 10);
}

/// The tree that a parser gives for `= Intro`: the heading holds its
/// marker, a space, and markup with the text.
fn parsed_heading() -> SyntaxNode {
    inner(
        SyntaxKind::Other,
        vec![inner(
            SyntaxKind::Heading,
            vec![
                leaf(SyntaxKind::Other, "=", 3),
                leaf(SyntaxKind::Space, " ", 4),
                inner(SyntaxKind::Other, vec![leaf(SyntaxKind::Text, "Intro", 6)], 5),
            ],
            2,
        )],
        1,
    )
}

#[test]
fn the_marker_of_a_heading_and_the_space_behind_it_are_hidden() {
    let chunks = convert(&parsed_heading(), &Rules::new(), 1000);
    assert_eq!(texts(&chunks), vec![String::from("\n\nIntro\n\n")]);
    assert_eq!(
        chunks[0].segments,
        vec![
            Segment::Encoded(String::new(), String::from("\n\n")),
            Segment::Markup(String::from("= ")),
            Segment::Text(String::from("Intro")),
            Segment::Encoded(String::new(), String::from("\n\n")),
        ]
    );
    let mapping = &chunks[0].mapping;
    assert_eq!(mapping.chars.len(), 9);
    for i in [0, 1, 7, 8] {
        assert_eq!(mapping.chars[i], MapEntry::synthetic());
    }
    assert_eq!(mapping.chars[2], MapEntry { span: span(6), start: 0, end: 1 });
    assert_eq!(mapping.chars[6], MapEntry { span: span(6), start: 4, end: 5 });

    let source = Source::new(FileId(0), parsed_heading()).unwrap();
    let mut world = World::new();
    world.add(source);
    let source = world.source(FileId(0));
    // The word is found at its bytes behind the marker and the space.
    let places = mapping.location(&suggestion(2, 7), &world, source, &WordSet::new());
    assert_eq!(places, vec![Location { file: FileId(0), start: 2, end: 7 }]);
}

#[test]
fn space_inside_the_text_of_a_heading_is_read() {
    let root = inner(
        SyntaxKind::Heading,
        vec![
            leaf(SyntaxKind::Other, "==", 2),
            leaf(SyntaxKind::Space, " ", 3),
            inner(
                SyntaxKind::Other,
                vec![
                    leaf(SyntaxKind::Text, "Two", 5),
                    leaf(SyntaxKind::Space, " ", 6),
                    leaf(SyntaxKind::Text, "words", 7),
                ],
                4,
            ),
            leaf(SyntaxKind::Space, " ", 8),
        ],
        1,
    );
    let chunks = convert(&root, &Rules::new(), 1000);
    assert_eq!(texts(&chunks), vec![String::from("\n\nTwo words \n\n")]);
}

#[test]
fn the_entries_of_a_chunk_follow_the_document() {
    let root = inner(
        SyntaxKind::Other,
        vec![
            leaf(SyntaxKind::Text, "Öl", 2),
            leaf(SyntaxKind::Space, " ", 3),
            inner(
                SyntaxKind::Equation,
                vec![
                    leaf(SyntaxKind::Other, "$", 5),
                    leaf(SyntaxKind::Text, "x", 6),
                    leaf(SyntaxKind::Other, "$", 7),
                ],
                4,
            ),
            leaf(SyntaxKind::Parbreak, "\n\n", 8),
            parsed_heading_from(9),
            leaf(SyntaxKind::Text, "end", 14),
        ],
        1,
    );
    let chunks = convert(&root, &Rules::new(), 1000);
    assert_eq!(texts(&chunks), vec![String::from("Öl 0\n\n\n\nIntro\n\nend")]);
    let placed: Vec<MapEntry> =
        chunks[0].mapping.chars.iter().copied().filter(|e| !e.span.is_detached()).collect();
    let numbers: Vec<u64> = placed.iter().map(|e| e.span.number).collect();
    assert_eq!(numbers, vec![2, 2, 3, 4, 8, 8, 13, 13, 13, 13, 13, 14, 14, 14]);
    for pair in placed.windows(2) {
        assert!(
            pair[0].span.number < pair[1].span.number
                || (pair[0].span == pair[1].span && pair[0].start <= pair[1].start)
        );
    }
    assert!(Source::new(FileId(0), root).is_some());
}

/// The tree of a heading with the text `Intro`, numbered from `first` on.
fn parsed_heading_from(first: u64) -> SyntaxNode {
    inner(
        SyntaxKind::Heading,
        vec![
            leaf(SyntaxKind::Other, "=", first + 1),
            leaf(SyntaxKind::Space, " ", first + 2),
            inner(SyntaxKind::Other, vec![leaf(SyntaxKind::Text, "Intro", first + 4)], first + 3),
        ],
        first,
    )
}
