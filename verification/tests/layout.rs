use typst_languagetool::layout::{Converter, document, Glyph, Page, PagedDocument, TextItem};
use typst_languagetool::mapping::{MapEntry, Mapping};
use typst_languagetool::syntax::{FileId, Span};

fn glyphs(text: &str, file: u16, number: u64, offset: u16) -> Vec<Glyph> {
    let mut at = offset;
    let mut all = Vec::new();
    for c in text.chars() {
        all.push(Glyph {
            span: Span::new(FileId(file), number),
            offset: at,
            len: c.len_utf8() as u16,
            chars: 1,
        });
        at += c.len_utf8() as u16;
    }
    all
}

fn item(text: &str, lang: &str, x: i64, y: i64, number: u64, offset: u16) -> TextItem {
    TextItem {
        text: String::from(text),
        lang: String::from(lang),
        x,
        y,
        width: 10 * text.chars().count() as i64,
        line_height: 12,
        glyphs: glyphs(text, 0, number, offset),
    }
}

fn one_page(items: Vec<TextItem>) -> PagedDocument {
    PagedDocument { pages: vec![Page { items }], tolerance: 0 }
}

fn texts(chunks: &[(String, Mapping)]) -> Vec<String> {
    chunks.iter().map(|c| c.0.clone()).collect()
}

#[test]
fn runs_on_one_line_are_parted_by_one_space() {
    let doc = one_page(vec![item("Hello", "en", 0, 0, 1, 0), item("world", "en", 60, 0, 2, 0)]);
    let chunks = document(&doc, 1000, None);
    assert_eq!(texts(&chunks), vec![String::from("Hello world")]);
    let mapping = &chunks[0].1;
    assert_eq!(mapping.chars.len(), 11);
    assert_eq!(mapping.chars[5], MapEntry::synthetic());
    assert!(mapping.chars[5].span.is_detached());
    assert_eq!(mapping.chars[4], MapEntry { span: Span::new(FileId(0), 1), start: 4, end: 5 });
    assert_eq!(mapping.chars[6], MapEntry { span: Span::new(FileId(0), 2), start: 0, end: 1 });
    assert_eq!(mapping.short_language(), "en");
}

#[test]
fn a_run_that_starts_where_the_last_ended_follows_directly() {
    let doc = one_page(vec![item("Hel", "en", 0, 0, 1, 0), item("lo", "en", 30, 0, 2, 0)]);
    assert_eq!(texts(&document(&doc, 1000, None)), vec![String::from("Hello")]);
}

#[test]
fn a_run_that_goes_on_in_its_node_follows_directly() {
    // The same node goes on at byte 4, on the next line.
    let doc = one_page(vec![item("Hyph", "en", 0, 0, 1, 0), item("en", "en", 5, 40, 1, 4)]);
    assert_eq!(texts(&document(&doc, 1000, None)), vec![String::from("Hyphen")]);
    // Another place in the node does not.
    let doc = one_page(vec![item("Hyph", "en", 0, 0, 1, 0), item("en", "en", 5, 40, 1, 6)]);
    assert_eq!(texts(&document(&doc, 1000, None)), vec![String::from("Hyph\n\nen")]);
}

#[test]
fn runs_within_a_line_height_count_as_one_line() {
    let doc = one_page(vec![item("a", "en", 0, 0, 1, 0), item("b", "en", 50, 12, 2, 0)]);
    assert_eq!(texts(&document(&doc, 1000, None)), vec![String::from("a b")]);
    let doc = one_page(vec![item("a", "en", 0, 0, 1, 0), item("b", "en", 50, 13, 2, 0)]);
    assert_eq!(texts(&document(&doc, 1000, None)), vec![String::from("a\n\nb")]);
    let doc = one_page(vec![item("a", "en", 0, 20, 1, 0), item("b", "en", 50, 7, 2, 0)]);
    assert_eq!(texts(&document(&doc, 1000, None)), vec![String::from("a\n\nb")]);
    // The top left corner of a page is where its text is taken to start.
    let doc = one_page(vec![item("a", "en", 5, 20, 1, 0), item("b", "en", 50, 8, 2, 0)]);
    assert_eq!(texts(&document(&doc, 1000, None)), vec![String::from("\n\na b")]);
}

#[test]
fn tolerance_decides_what_counts_as_the_same_place() {
    let items = || vec![item("a", "en", 0, 0, 1, 0), item("b", "en", 12, 0, 2, 0)];
    let doc = PagedDocument { pages: vec![Page { items: items() }], tolerance: 2 };
    assert_eq!(texts(&document(&doc, 1000, None)), vec![String::from("ab")]);
    let doc = PagedDocument { pages: vec![Page { items: items() }], tolerance: 1 };
    assert_eq!(texts(&document(&doc, 1000, None)), vec![String::from("a b")]);
}

#[test]
fn a_paragraph_break_ends_a_chunk_that_is_long_enough() {
    let items = || {
        vec![
            item("abc", "en", 0, 0, 1, 0),
            item("def", "en", 5, 100, 2, 0),
            item("ghi", "en", 5, 200, 3, 0),
        ]
    };
    let chunks = document(&one_page(items()), 3, None);
    assert_eq!(texts(&chunks), vec![String::from("abc\n\ndef"), String::from("ghi")]);
    let chunks = document(&one_page(items()), 2, None);
    assert_eq!(
        texts(&chunks),
        vec![String::from("abc"), String::from("def"), String::from("ghi")]
    );
    let chunks = document(&one_page(items()), 100, None);
    assert_eq!(texts(&chunks), vec![String::from("abc\n\ndef\n\nghi")]);
}

#[test]
fn a_change_of_language_ends_the_chunk() {
    let doc = one_page(vec![
        item("Hello", "en", 0, 0, 1, 0),
        item("Welt", "de", 60, 0, 2, 0),
        item("heute", "de", 110, 0, 3, 0),
    ]);
    let chunks = document(&doc, 1000, None);
    assert_eq!(texts(&chunks), vec![String::from("Hello"), String::from(" Welt heute")]);
    assert_eq!(chunks[0].1.short_language(), "en");
    assert_eq!(chunks[0].1.long_language(), "en-GB");
    assert_eq!(chunks[1].1.short_language(), "de");
    assert_eq!(chunks[1].1.long_language(), "de-DE");
}

#[test]
fn every_page_starts_a_chunk() {
    let doc = PagedDocument {
        pages: vec![
            Page { items: vec![item("one", "en", 0, 0, 1, 0)] },
            Page { items: vec![] },
            Page { items: vec![item("two", "en", 0, 0, 2, 0)] },
        ],
        tolerance: 0,
    };
    assert_eq!(texts(&document(&doc, 1000, None)), vec![String::from("one"), String::from("two")]);
}

#[test]
fn chunks_without_the_file_that_is_asked_for_are_left_out() {
    let mut other = item("other", "en", 0, 0, 1, 0);
    other.glyphs = glyphs("other", 7, 1, 0);
    let doc = PagedDocument {
        pages: vec![
            Page { items: vec![item("mine", "en", 0, 0, 1, 0)] },
            Page { items: vec![other] },
        ],
        tolerance: 0,
    };
    assert_eq!(
        texts(&document(&doc, 1000, None)),
        vec![String::from("mine"), String::from("other")]
    );
    assert_eq!(texts(&document(&doc, 1000, Some(FileId(0)))), vec![String::from("mine")]);
    assert_eq!(texts(&document(&doc, 1000, Some(FileId(7)))), vec![String::from("other")]);
    assert_eq!(document(&doc, 1000, Some(FileId(3))).len(), 0);
}

#[test]
fn glyphs_and_characters_are_matched() {
    // A ligature of two characters, and a character without a glyph.
    let run = TextItem {
        text: String::from("fié!"),
        lang: String::from("en"),
        x: 0,
        y: 0,
        width: 30,
        line_height: 12,
        glyphs: vec![
            Glyph { span: Span::new(FileId(0), 5), offset: 2, len: 2, chars: 2 },
            Glyph { span: Span::detached(), offset: 0, len: 2, chars: 1 },
        ],
    };
    let chunks = document(&one_page(vec![run]), 1000, None);
    assert_eq!(texts(&chunks), vec![String::from("fié!")]);
    let entry = MapEntry { span: Span::new(FileId(0), 5), start: 2, end: 4 };
    assert_eq!(
        chunks[0].1.chars,
        vec![
            entry,
            entry,
            MapEntry { span: Span::detached(), start: 0, end: 2 },
            MapEntry::synthetic(),
        ]
    );
}

#[test]
fn glyphs_beyond_the_text_are_left_out() {
    let run = TextItem {
        text: String::from("ab"),
        lang: String::from("en"),
        x: 0,
        y: 0,
        width: 20,
        line_height: 12,
        glyphs: vec![
            Glyph { span: Span::new(FileId(0), 5), offset: 0, len: 1, chars: 1 },
            Glyph { span: Span::new(FileId(0), 6), offset: 0, len: 1, chars: 3 },
        ],
    };
    let chunks = document(&one_page(vec![run]), 1000, None);
    assert_eq!(chunks[0].1.chars.len(), 2);
    assert_eq!(chunks[0].1.chars[1].span, Span::new(FileId(0), 6));
}

#[test]
fn a_negative_line_height_counts_as_zero() {
    let run = |text: &str, x: i64, y: i64, number: u64| TextItem {
        line_height: -5,
        ..item(text, "en", x, y, number, 0)
    };
    let doc = one_page(vec![run("a", 0, 0, 1), run("b", 50, 0, 2)]);
    assert_eq!(texts(&document(&doc, 1000, None)), vec![String::from("a b")]);
    let doc = one_page(vec![run("a", 0, 0, 1), run("b", 50, 1, 2)]);
    assert_eq!(texts(&document(&doc, 1000, None)), vec![String::from("a\n\nb")]);
    // So does a negative tolerance.
    let items = vec![item("a", "en", 0, 0, 1, 0), item("b", "en", 10, 0, 2, 0)];
    let doc = PagedDocument { pages: vec![Page { items }], tolerance: -3 };
    assert_eq!(texts(&document(&doc, 1000, None)), vec![String::from("ab")]);
}

#[test]
fn a_converter_adds_one_space_without_a_source() {
    let mut converter = Converter::new(Vec::new(), 1000, "en");
    converter.item(&item("Hello", "en", 0, 0, 1, 0), None, 0);
    converter.insert_space();
    let chunks = converter.finish();
    assert_eq!(texts(&chunks), vec![String::from("Hello ")]);
    assert_eq!(chunks[0].1.chars.len(), 6);
    assert_eq!(chunks[0].1.chars[5], MapEntry::synthetic());
}

#[test]
fn a_paragraph_break_finishes_a_chunk_above_the_limit_whole() {
    let mut converter = Converter::new(Vec::new(), 4, "en");
    converter.item(&item("Hello", "en", 0, 0, 1, 0), None, 0);
    converter.insert_parbreak();
    converter.item(&item("you", "en", 0, 40, 2, 0), None, 0);
    let chunks = converter.finish();
    assert_eq!(texts(&chunks), vec![String::from("Hello"), String::from("you")]);
    assert_eq!(chunks[0].1.chars.len(), 5);
    assert_eq!(chunks[0].1.short_language(), "en");
}

#[test]
fn a_paragraph_break_below_the_limit_is_two_line_feeds_without_a_source() {
    let mut converter = Converter::new(Vec::new(), 5, "en");
    converter.item(&item("Hello", "en", 0, 0, 1, 0), None, 0);
    converter.insert_parbreak();
    let chunks = converter.finish();
    assert_eq!(texts(&chunks), vec![String::from("Hello\n\n")]);
    assert_eq!(chunks[0].1.chars[5], MapEntry::synthetic());
    assert_eq!(chunks[0].1.chars[6], MapEntry::synthetic());
}

#[test]
fn the_gap_before_a_run_depends_on_where_the_run_stands() {
    let gap = |next: TextItem| {
        let mut converter = Converter::new(Vec::new(), 1000, "en");
        converter.item(&item("ab", "en", 0, 0, 1, 0), None, 0);
        converter.whitespace(&next, 0);
        converter.finish().remove(0).0
    };
    // Where the last run ended: nothing.
    assert_eq!(gap(item("c", "en", 20, 0, 2, 0)), "ab");
    // Further on in the node of the last run: nothing.
    assert_eq!(gap(item("c", "en", 0, 40, 1, 2)), "ab");
    // On the same line: a space.
    assert_eq!(gap(item("c", "en", 30, 5, 2, 0)), "ab ");
    // On another line: a paragraph break.
    assert_eq!(gap(item("c", "en", 30, 40, 2, 0)), "ab\n\n");
}

#[test]
fn a_chunk_without_a_character_of_the_file_is_dropped_when_it_is_finished() {
    let mut converter = Converter::new(Vec::new(), 1000, "en");
    converter.item(&item("ab", "en", 0, 0, 1, 0), Some(FileId(7)), 0);
    converter.seperate();
    converter.item(&item("cd", "en", 0, 0, 1, 0), Some(FileId(0)), 0);
    assert_eq!(texts(&converter.finish()), vec![String::from("cd")]);
}
