use typst_languagetool::diagnostic::Suggestion;
use typst_languagetool::mapping::MapEntry;
use typst_languagetool::options::{BackendOptions, LanguageToolOptions};
use typst_languagetool::output::Position;
use typst_languagetool::remote::{filter_match, suggestions_from, Match, TextBuilderRemote};
use typst_languagetool::rules::{Argument, Function, Rules};
use typst_languagetool::syntax::{FileId, Span};
use typst_languagetool::table::Table;
use typst_languagetool::text::{byte_len, char_width, chars_of, has_inner_break, is_blank, str_eq};
use typst_languagetool::text_builder::{Segment, TextBuilder};
use typst_languagetool::words::WordSet;

#[test]
fn default_rules() {
    let rules = Rules::new();
    let row = Function {
        before: String::new(),
        after: String::new(),
        after_argument: String::from("\n"),
    };
    assert_eq!(rules.function("grid"), Some(&row));
    assert_eq!(rules.function("table"), Some(&row));
    assert_eq!(rules.function("header"), Some(&row));
    assert_eq!(
        rules.function("cell"),
        Some(&Function {
            before: String::from("\n"),
            after: String::from("\n"),
            after_argument: String::new(),
        })
    );
    assert_eq!(rules.function("caption"), None);
    assert_eq!(rules.functions.len(), 4);
    assert_eq!(
        rules.argument("caption"),
        Some(&Argument { before: String::from("\n\n"), after: String::from("\n\n") })
    );
    assert_eq!(rules.argument("grid"), None);
    assert_eq!(rules.arguments.len(), 1);
    assert_eq!(Rules::default().functions.len(), 4);
}

#[test]
fn tables_keep_the_last_value_of_a_key() {
    let mut table = Table::new();
    assert_eq!(table.get("a"), None);
    table.insert(String::from("a"), 1);
    table.insert(String::from("b"), 2);
    table.insert(String::from("a"), 3);
    assert_eq!(table.get("a"), Some(&3));
    assert_eq!(table.get("b"), Some(&2));
    assert_eq!(table.len(), 2);
    assert!(table.contains_key("b"));
    assert!(!table.contains_key("c"));
    let mut other = Table::new();
    other.insert(String::from("b"), 20);
    other.insert(String::from("c"), 30);
    table.extend(other);
    assert_eq!(table.get("a"), Some(&3));
    assert_eq!(table.get("b"), Some(&20));
    assert_eq!(table.get("c"), Some(&30));
    assert_eq!(table.len(), 3);
}

#[test]
fn word_sets() {
    let mut set = WordSet::new();
    assert!(!set.contains("a"));
    set.insert(String::from("a"));
    set.insert(String::from("a"));
    set.insert(String::from("b"));
    assert!(set.contains("a"));
    assert!(set.contains("b"));
    assert!(!set.contains("ab"));
    assert_eq!(set.words.len(), 2);
    let mut other = WordSet::new();
    other.insert(String::from("b"));
    other.insert(String::from("c"));
    set.extend(other);
    assert!(set.contains("a") && set.contains("b") && set.contains("c"));
    assert_eq!(set.words.len(), 3);
}

#[test]
fn default_options() {
    let options = LanguageToolOptions::default();
    assert_eq!(options.root, None);
    assert_eq!(options.main, None);
    assert_eq!(options.chunk_size, 1000);
    assert_eq!(options.backend, None);
    assert_eq!(options.languages.len(), 0);
    assert_eq!(options.dictionary.len(), 0);
    assert_eq!(options.disabled_checks.len(), 0);
    assert!(options.ignore_functions.contains("lorem"));
    assert!(options.ignore_functions.contains("bibliography"));
    assert!(options.ignore_functions.contains("cite"));
    assert_eq!(options.ignore_functions.words.len(), 3);
}

#[test]
fn options_are_laid_over_each_other() {
    let mut file = LanguageToolOptions::default();
    file.root = Some(String::from("/file"));
    file.main = Some(String::from("main.typ"));
    file.chunk_size = 500;
    file.backend = Some(BackendOptions::Bundle);
    file.languages.insert(String::from("en"), String::from("en-US"));
    file.languages.insert(String::from("de"), String::from("de-AT"));
    file.dictionary.insert(String::from("en"), vec![String::from("typst")]);
    file.ignore_functions.insert(String::from("raw"));

    let mut given = LanguageToolOptions::default();
    given.root = Some(String::from("/given"));
    given.backend =
        Some(BackendOptions::Remote { host: String::from("localhost"), port: String::from("8081") });
    given.languages.insert(String::from("en"), String::from("en-GB"));
    given.disabled_checks.insert(String::from("en"), vec![String::from("WHITESPACE_RULE")]);
    given.ignore_functions.insert(String::from("code"));

    let merged = file.overwrite(given);
    assert_eq!(merged.root, Some(String::from("/given")));
    assert_eq!(merged.main, Some(String::from("main.typ")));
    // The usual chunk size of the second leaves the first as it is.
    assert_eq!(merged.chunk_size, 500);
    assert_eq!(
        merged.backend,
        Some(BackendOptions::Remote { host: String::from("localhost"), port: String::from("8081") })
    );
    assert_eq!(merged.languages.get("en"), Some(&String::from("en-GB")));
    assert_eq!(merged.languages.get("de"), Some(&String::from("de-AT")));
    assert_eq!(merged.dictionary.get("en"), Some(&vec![String::from("typst")]));
    assert_eq!(merged.disabled_checks.get("en"), Some(&vec![String::from("WHITESPACE_RULE")]));
    for name in ["lorem", "bibliography", "cite", "raw", "code"] {
        assert!(merged.ignore_functions.contains(name));
    }

    let mut larger = LanguageToolOptions::default();
    larger.chunk_size = 2000;
    let merged = merged.overwrite(larger);
    assert_eq!(merged.chunk_size, 2000);
    assert_eq!(merged.root, Some(String::from("/given")));
    assert!(merged.backend.is_some());
}

#[test]
fn segments_of_one_kind_are_joined() {
    let span = Span::new(FileId(0), 1);
    let other = Span::new(FileId(0), 2);
    let mut builder = TextBuilder::new("en");
    builder.add_text("", span);
    builder.add_markup("#");
    builder.add_markup("");
    builder.add_markup("let");
    builder.add_text("Hi", span);
    builder.add_text(" é", other);
    builder.add_encoded("", "", span);
    builder.add_encoded("$x$", "0", span);
    builder.add_encoded("", "\n", Span::detached());
    builder.add_encoded("gone", "", span);
    builder.add_text("!", other);
    assert_eq!(builder.char_count(), 7);
    assert_eq!(builder.language(), "en");
    let chunk = builder.finish();
    assert_eq!(chunk.text, "Hi é0\n!");
    assert_eq!(
        chunk.segments,
        vec![
            Segment::Markup(String::from("#let")),
            Segment::Text(String::from("Hi é")),
            Segment::Encoded(String::from("$x$gone"), String::from("0\n")),
            Segment::Text(String::from("!")),
        ]
    );
    assert_eq!(
        chunk.mapping.chars,
        vec![
            MapEntry { span, start: 0, end: 1 },
            MapEntry { span, start: 1, end: 2 },
            MapEntry { span: other, start: 0, end: 1 },
            MapEntry { span: other, start: 1, end: 3 },
            MapEntry { span, start: 0, end: 3 },
            MapEntry { span: Span::detached(), start: 0, end: 0 },
            MapEntry { span: other, start: 0, end: 1 },
        ]
    );
    assert_eq!(chunk.mapping.short_language(), "en");
}

#[test]
fn an_empty_builder_gives_an_empty_chunk() {
    let chunk = TextBuilder::new("de").finish();
    assert_eq!(chunk.text, "");
    assert_eq!(chunk.segments, vec![]);
    assert_eq!(chunk.mapping.chars, vec![]);
    assert_eq!(chunk.mapping.short_language(), "de");
}

#[test]
fn the_remote_builder_maps_back_to_characters_of_the_source() {
    let mut builder = TextBuilderRemote::new();
    builder.add_markup("#[");
    builder.add_text("äb");
    builder.add_encoded("$x$", "0");
    builder.add_markup("]");
    builder.add_text("c");
    assert_eq!(builder.converted(), "äb0c");
    assert_eq!(builder.source_position(0), Some(2));
    assert_eq!(builder.source_position(1), Some(3));
    assert_eq!(builder.source_position(2), Some(4));
    assert_eq!(builder.source_position(3), Some(8));
    assert_eq!(builder.source_position(4), None);
}

fn found(offset: usize, length: usize, context: &str, at: usize, len: usize) -> Match {
    Match {
        offset,
        length,
        message: String::from("message"),
        rule_id: String::from("RULE"),
        rule_description: String::from("description"),
        replacements: vec![String::from("a"), String::from("b")],
        context_text: String::from(context),
        context_offset: at,
        context_length: len,
    }
}

#[test]
fn matches_about_accepted_words_are_left_out() {
    let mut allowed = WordSet::new();
    allowed.insert(String::from("Typst"));
    allowed.insert(String::from("Ünï"));
    assert!(filter_match("I use Typst daily", 6, 5, &allowed));
    assert!(filter_match("an Ünï!", 3, 3, &allowed));
    assert!(!filter_match("I use Typsd daily", 6, 5, &allowed));
    assert!(!filter_match("I use Typst daily", 6, 0, &allowed));
    assert!(!filter_match("I use Typst daily", 6, 4, &allowed));
    // The word has to be followed by something.
    assert!(!filter_match("I use Typst", 6, 5, &allowed));
    assert!(!filter_match("Typst", 60, 5, &allowed));
    assert!(!filter_match("Typst", 0, usize::MAX, &allowed));

    let matches = vec![
        found(10, 5, "I use Typst daily", 6, 5),
        found(20, 3, "I use Typsd daily", 6, 5),
        found(usize::MAX, 3, "", 0, 0),
    ];
    let expected = |start: usize, end: usize| Suggestion {
        start,
        end,
        message: String::from("message"),
        replacements: vec![String::from("a"), String::from("b")],
        rule_description: String::from("description"),
        rule_id: String::from("RULE"),
    };
    assert_eq!(
        suggestions_from(matches.clone(), Some(&allowed)),
        vec![expected(20, 23), expected(usize::MAX, usize::MAX)]
    );
    assert_eq!(
        suggestions_from(matches, None),
        vec![expected(10, 15), expected(20, 23), expected(usize::MAX, usize::MAX)]
    );
}

#[test]
fn positions_count_lines_and_columns_from_one() {
    let mut position = Position::new("ab\ncd\n\nef");
    assert_eq!((position.line(), position.column()), (1, 1));
    position.advance(1);
    assert_eq!((position.line(), position.column()), (1, 2));
    position.advance(2);
    assert_eq!((position.line(), position.column()), (2, 1));
    position.advance(0);
    assert_eq!((position.line(), position.column()), (2, 1));
    position.advance(5);
    assert_eq!((position.line(), position.column()), (4, 2));
    // The end of the text is as far as it goes.
    position.advance(10);
    assert_eq!((position.line(), position.column()), (4, 3));
    position.advance(1);
    assert_eq!((position.line(), position.column()), (4, 3));
}

#[test]
fn characters_and_bytes() {
    assert_eq!(char_width('a'), 1);
    assert_eq!(char_width('\u{7f}'), 1);
    assert_eq!(char_width('\u{80}'), 2);
    assert_eq!(char_width('é'), 2);
    assert_eq!(char_width('\u{7ff}'), 2);
    assert_eq!(char_width('\u{800}'), 3);
    assert_eq!(char_width('€'), 3);
    assert_eq!(char_width('\u{ffff}'), 3);
    assert_eq!(char_width('\u{10000}'), 4);
    assert_eq!(char_width('🦀'), 4);
    assert_eq!(byte_len("aé€🦀"), 10);
    assert_eq!(byte_len(""), 0);
    assert_eq!(chars_of("aé"), vec!['a', 'é']);
    assert!(str_eq("aé", "aé"));
    assert!(!str_eq("aé", "ae"));
    assert!(!str_eq("a", "ab"));
}

#[test]
fn line_breaks_and_blanks() {
    assert!(has_inner_break("   \n\t"));
    assert!(has_inner_break("\n\n"));
    assert!(has_inner_break("\n "));
    assert!(!has_inner_break("\n"));
    assert!(!has_inner_break("  \n"));
    assert!(!has_inner_break("   "));
    assert!(!has_inner_break(""));
    assert!(is_blank(""));
    assert!(is_blank(" \t\n\r\u{a0}\u{3000}"));
    assert!(!is_blank(" a "));
    assert!(!is_blank("\u{200b}"));
}

#[test]
fn tables_never_hold_a_key_twice() {
    let mut table = Table::new();
    for key in ["a", "b", "a", "c", "b", "a"] {
        table.insert(String::from(key), key.len());
    }
    let mut other = Table::new();
    for key in ["c", "d", "c"] {
        other.insert(String::from(key), 0);
    }
    table.extend(other);
    let mut keys: Vec<&str> = table.entries.iter().map(|e| e.0.as_str()).collect();
    keys.sort();
    assert_eq!(keys, vec!["a", "b", "c", "d"]);
}

#[test]
fn the_main_items_are_at_hand() {
    let rules = typst_languagetool::Rules::new();
    let root = typst_languagetool::syntax::SyntaxNode::leaf(
        typst_languagetool::syntax::SyntaxKind::Text,
        "Hi",
        Span::new(FileId(0), 1),
    );
    let chunks = typst_languagetool::convert::convert(&root, &rules, 10);
    assert_eq!(chunks.len(), 1);
    let mapping: &typst_languagetool::convert::Mapping = &chunks[0].mapping;
    assert_eq!(mapping.chars.len(), 2);
    let collector = typst_languagetool::FileCollector::new(None);
    let found: Vec<typst_languagetool::Diagnostic> = collector.finish();
    assert_eq!(found.len(), 0);
    let options = typst_languagetool::LanguageToolOptions::default();
    assert_eq!(options.backend, None::<typst_languagetool::BackendOptions>);
    let doc = typst_languagetool::layout::PagedDocument { pages: vec![], tolerance: 0 };
    assert_eq!(typst_languagetool::convert::document(&doc, 10, None).len(), 0);
}
