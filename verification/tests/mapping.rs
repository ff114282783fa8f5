use typst_languagetool::collector::{presentable_replacements, FileCollector};
use typst_languagetool::diagnostic::{Diagnostic, Location, Suggestion};
use typst_languagetool::mapping::{long_language_of, MapEntry, Mapping};
use typst_languagetool::source::{Found, Source, World};
use typst_languagetool::syntax::{FileId, Span, SyntaxKind, SyntaxNode};
use typst_languagetool::words::WordSet;

fn span(file: u16, number: u64) -> Span {
    Span::new(FileId(file), number)
}

fn suggestion(start: usize, end: usize) -> Suggestion {
    Suggestion {
        start,
        end,
        message: String::from("message"),
        replacements: vec![String::from("one"), String::from(" \t"), String::new(), String::from("two")],
        rule_description: String::from("description"),
        rule_id: String::from("RULE"),
    }
}

/// `ab #lorem(5) cd` in file 0.
fn tree(file: u16) -> SyntaxNode {
    SyntaxNode::inner(
        SyntaxKind::Other,
        vec![
            SyntaxNode::leaf(SyntaxKind::Text, "ab", span(file, 2)),
            SyntaxNode::leaf(SyntaxKind::Space, " ", span(file, 3)),
            SyntaxNode::leaf(SyntaxKind::Other, "#", span(file, 4)),
            SyntaxNode::inner(
                SyntaxKind::FuncCall,
                vec![
                    SyntaxNode::leaf(SyntaxKind::Other, "lorem", span(file, 6)),
                    SyntaxNode::leaf(SyntaxKind::Other, "(5)", span(file, 7)),
                ],
                span(file, 5),
            ),
            SyntaxNode::leaf(SyntaxKind::Space, " ", span(file, 8)),
            SyntaxNode::leaf(SyntaxKind::Text, "cd", span(file, 9)),
        ],
        span(file, 1),
    )
}

fn world() -> World {
    let mut world = World::new();
    world.add(Source::new(FileId(0), tree(0)).unwrap());
    world.add(Source::new(FileId(1), tree(1)).unwrap());
    world
}

fn ignore() -> WordSet {
    let mut set = WordSet::new();
    set.insert(String::from("lorem"));
    set
}

/// The text of the function call, laid out: every character carries the
/// span of the call.
fn generated() -> Mapping {
    let mut mapping = Mapping::new("en");
    for _ in 0..5 {
        mapping.chars.push(MapEntry { span: span(0, 5), start: 0, end: 1 });
    }
    mapping
}

#[test]
fn a_match_in_an_ignored_function_call_is_dropped() {
    let world = world();
    let mapping = generated();
    assert_eq!(mapping.location(&suggestion(1, 4), &world, None, &ignore()), vec![]);
    let mut collector = FileCollector::new(None);
    collector.add(&world, &vec![suggestion(1, 4)], &mapping, &ignore());
    assert_eq!(collector.finish(), vec![]);
}

#[test]
fn a_match_in_another_function_call_is_placed_on_the_call_once() {
    let world = world();
    let mapping = generated();
    let places = mapping.location(&suggestion(1, 4), &world, None, &WordSet::new());
    assert_eq!(places, vec![Location { file: FileId(0), start: 4, end: 12 }]);
}

#[test]
fn bytes_of_text_are_joined_where_they_touch() {
    let world = world();
    let mut mapping = Mapping::new("en");
    mapping.chars.push(MapEntry { span: span(0, 2), start: 0, end: 1 });
    mapping.chars.push(MapEntry { span: span(0, 2), start: 1, end: 2 });
    mapping.chars.push(MapEntry::synthetic());
    mapping.chars.push(MapEntry { span: span(0, 9), start: 0, end: 1 });
    mapping.chars.push(MapEntry { span: span(1, 9), start: 1, end: 2 });
    mapping.chars.push(MapEntry { span: span(0, 9), start: 1, end: 2 });
    let places = mapping.location(&suggestion(0, 6), &world, None, &WordSet::new());
    assert_eq!(
        places,
        vec![
            Location { file: FileId(0), start: 0, end: 2 },
            Location { file: FileId(0), start: 13, end: 14 },
            Location { file: FileId(1), start: 14, end: 15 },
            Location { file: FileId(0), start: 14, end: 15 },
        ]
    );
    // With one file asked for, the other is skipped and the bytes touch.
    let places = mapping.location(&suggestion(0, 6), &world, world.source(FileId(0)), &WordSet::new());
    assert_eq!(
        places,
        vec![
            Location { file: FileId(0), start: 0, end: 2 },
            Location { file: FileId(0), start: 13, end: 15 },
        ]
    );
}

#[test]
fn what_cannot_be_found_has_no_place() {
    let world = world();
    let mut mapping = Mapping::new("en");
    mapping.chars.push(MapEntry { span: span(0, 77), start: 0, end: 1 });
    mapping.chars.push(MapEntry { span: span(5, 2), start: 0, end: 1 });
    mapping.chars.push(MapEntry::synthetic());
    assert_eq!(mapping.location(&suggestion(0, 3), &world, None, &WordSet::new()), vec![]);
    // A range beyond the text selects what there is.
    assert_eq!(mapping.location(&suggestion(0, 30), &world, None, &WordSet::new()), vec![]);
    assert_eq!(mapping.location(&suggestion(30, 40), &world, None, &WordSet::new()), vec![]);
    assert_eq!(mapping.location(&suggestion(2, 1), &world, None, &WordSet::new()), vec![]);
}

#[test]
fn diagnostics_keep_the_order_and_drop_blank_replacements() {
    let world = world();
    let mut mapping = Mapping::new("en");
    mapping.chars.push(MapEntry { span: span(0, 2), start: 0, end: 1 });
    mapping.chars.push(MapEntry::synthetic());
    mapping.chars.push(MapEntry { span: span(0, 9), start: 0, end: 2 });
    let mut collector = FileCollector::new(Some(FileId(0)));
    collector.add(
        &world,
        &vec![suggestion(2, 3), suggestion(1, 2), suggestion(0, 1)],
        &mapping,
        &WordSet::new(),
    );
    let expected = |start: usize, end: usize| Diagnostic {
        locations: vec![Location { file: FileId(0), start, end }],
        message: String::from("message"),
        replacements: vec![String::from("one"), String::from("two")],
        rule_description: String::from("description"),
        rule_id: String::from("RULE"),
    };
    assert_eq!(collector.finish(), vec![expected(13, 15), expected(0, 1)]);
}

#[test]
fn a_collector_for_a_file_without_a_source_collects_nothing() {
    let world = world();
    let mut mapping = Mapping::new("en");
    mapping.chars.push(MapEntry { span: span(0, 2), start: 0, end: 1 });
    let mut collector = FileCollector::new(Some(FileId(9)));
    collector.add(&world, &vec![suggestion(0, 1)], &mapping, &WordSet::new());
    assert_eq!(collector.finish(), vec![]);
}

#[test]
fn blank_replacements_are_told_apart() {
    let kept = presentable_replacements(&vec![
        String::from(" "),
        String::from("a"),
        String::from("\u{a0}\u{2003}\n"),
        String::from(" b "),
        String::new(),
    ]);
    assert_eq!(kept, vec![String::from("a"), String::from(" b ")]);
}

#[test]
fn long_language_codes() {
    let table = [
        ("fr", "fr-FR"),
        ("sv", "sv-SE"),
        ("it", "it-IT"),
        ("es", "es-ES"),
        ("nl", "nl-NL"),
        ("zh", "zh-CN"),
        ("uk", "uk-UA"),
        ("sl", "sl-SI"),
        ("ru", "ru-RU"),
        ("ro", "ro-RO"),
        ("pl", "pl-PL"),
        ("ja", "ja-JP"),
        ("el", "el-GR"),
        ("da", "da-DK"),
        ("ca", "ca-ES"),
        ("pt", "pt-PT"),
        ("en", "en-GB"),
        ("de", "de-DE"),
        ("fi", "fi"),
        ("", ""),
        ("english", "english"),
    ];
    for (short, long) in table {
        assert_eq!(long_language_of(short), long);
        assert_eq!(Mapping::new(short).long_language(), long);
        assert_eq!(Mapping::new(short).short_language(), short);
    }
}

#[test]
fn sources_are_searched_by_span() {
    let source = Source::new(FileId(0), tree(0)).unwrap();
    assert_eq!(source.id(), FileId(0));
    assert_eq!(source.len_bytes(), 15);
    assert_eq!(source.root().children.len(), 6);
    assert_eq!(
        source.find(span(0, 5)),
        Some(Found { kind: SyntaxKind::FuncCall, start: 4, end: 12, name: Some(String::from("lorem")) })
    );
    assert_eq!(
        source.find(span(0, 9)),
        Some(Found { kind: SyntaxKind::Text, start: 13, end: 15, name: Some(String::from("cd")) })
    );
    assert_eq!(
        source.find(span(0, 1)),
        Some(Found { kind: SyntaxKind::Other, start: 0, end: 15, name: Some(String::from("ab")) })
    );
    assert_eq!(source.find(span(0, 10)), None);
    assert_eq!(source.find(span(1, 5)), None);
    assert_eq!(source.find(Span::detached()), None);
}

#[test]
fn sources_need_spans_in_growing_order() {
    assert!(Source::new(FileId(0), tree(0)).is_some());
    // Spans of another file.
    assert!(Source::new(FileId(1), tree(0)).is_none());
    // A span twice.
    let twice = SyntaxNode::inner(
        SyntaxKind::Other,
        vec![
            SyntaxNode::leaf(SyntaxKind::Text, "a", span(0, 2)),
            SyntaxNode::leaf(SyntaxKind::Text, "b", span(0, 2)),
        ],
        span(0, 1),
    );
    assert!(Source::new(FileId(0), twice).is_none());
    // A child before its parent.
    let early = SyntaxNode::inner(
        SyntaxKind::Other,
        vec![SyntaxNode::leaf(SyntaxKind::Text, "a", span(0, 1))],
        span(0, 2),
    );
    assert!(Source::new(FileId(0), early).is_none());
    // The number zero, and a detached span.
    assert!(Source::new(FileId(0), SyntaxNode::leaf(SyntaxKind::Text, "a", span(0, 0))).is_none());
    assert!(Source::new(FileId(0), SyntaxNode::leaf(SyntaxKind::Text, "a", Span::detached())).is_none());
    assert!(Source::new(FileId(0), SyntaxNode::leaf(SyntaxKind::Text, "a", span(0, 1))).is_some());
}

#[test]
fn nodes_know_their_length_and_first_leaf() {
    let node = tree(0);
    assert_eq!(node.len(), Some(15));
    assert!(!node.is_leaf());
    assert_eq!(node.leftmost_leaf_text(), Some("ab"));
    assert_eq!(node.children[3].leftmost_leaf_text(), Some("lorem"));
    assert_eq!(node.children[3].len(), Some(8));
    let leaf = SyntaxNode::leaf(SyntaxKind::Text, "Öl", Span::detached());
    assert!(leaf.is_leaf());
    assert_eq!(leaf.len(), Some(3));
    assert_eq!(Span::detached().id(), None);
    assert_eq!(span(3, 4).id(), Some(FileId(3)));
}

#[test]
fn the_first_token_is_found_behind_space_comments_and_errors() {
    let lead = |kind: SyntaxKind, text: &str| SyntaxNode::leaf(kind, text, Span::detached());
    let call = SyntaxNode::inner(
        SyntaxKind::FuncCall,
        vec![
            lead(SyntaxKind::Comment, "/* c */"),
            lead(SyntaxKind::Space, " "),
            lead(SyntaxKind::Error, "?"),
            lead(SyntaxKind::Parbreak, "\n\n"),
            SyntaxNode::inner(SyntaxKind::Other, vec![], Span::detached()),
            SyntaxNode::inner(
                SyntaxKind::Other,
                vec![lead(SyntaxKind::Space, " "), lead(SyntaxKind::Other, "lorem")],
                Span::detached(),
            ),
            lead(SyntaxKind::Other, "(5)"),
        ],
        Span::detached(),
    );
    assert_eq!(call.leftmost_leaf_text(), Some("lorem"));
    assert_eq!(lead(SyntaxKind::Text, "ab").leftmost_leaf_text(), Some("ab"));
    // Nothing but space and comments: there is no token.
    let blank = SyntaxNode::inner(
        SyntaxKind::Other,
        vec![lead(SyntaxKind::Space, " "), lead(SyntaxKind::Comment, "// c")],
        Span::detached(),
    );
    assert_eq!(blank.leftmost_leaf_text(), None);
    assert_eq!(lead(SyntaxKind::Space, " ").leftmost_leaf_text(), None);
    assert_eq!(lead(SyntaxKind::Other, "").leftmost_leaf_text(), None);
}
