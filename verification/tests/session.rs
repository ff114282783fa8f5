use typst_languagetool::cache::Cache;
use typst_languagetool::diagnostic::{Diagnostic, Location, Suggestion};
use typst_languagetool::mapping::{MapEntry, Mapping};
use typst_languagetool::session::{resolve_language, CheckPass, Request};
use typst_languagetool::source::{Source, World};
use typst_languagetool::syntax::{FileId, Span, SyntaxKind, SyntaxNode};
use typst_languagetool::table::Table;
use typst_languagetool::words::WordSet;

fn suggestion(start: usize, end: usize, message: &str) -> Suggestion {
    Suggestion {
        start,
        end,
        message: String::from(message),
        replacements: vec![String::from("other")],
        rule_description: String::from("description"),
        rule_id: String::from("RULE"),
    }
}

fn world() -> World {
    let root = SyntaxNode::inner(
        SyntaxKind::Other,
        vec![
            SyntaxNode::leaf(SyntaxKind::Text, "abc", Span::new(FileId(0), 2)),
            SyntaxNode::leaf(SyntaxKind::Text, "def", Span::new(FileId(0), 3)),
        ],
        Span::new(FileId(0), 1),
    );
    let mut world = World::new();
    world.add(Source::new(FileId(0), root).unwrap());
    world
}

fn chunk(text: &str, lang: &str, number: u64) -> (String, Mapping) {
    let mut mapping = Mapping::new(lang);
    for i in 0..text.len() {
        mapping.chars.push(MapEntry { span: Span::new(FileId(0), number), start: i, end: i + 1 });
    }
    (String::from(text), mapping)
}

fn chunks() -> Vec<(String, Mapping)> {
    vec![chunk("abc", "en", 2), chunk("def", "de", 3)]
}

/// A checker that reports the first character of every text.
fn check(request: &Request) -> Vec<Suggestion> {
    vec![suggestion(0, 1, &format!("{} in {}", request.text, request.language))]
}

/// Runs a pass to its end and tells how often the checker was asked.
fn run(cache: Cache, languages: &Table<String>) -> (Vec<Diagnostic>, Cache, usize) {
    let world = world();
    let ignore = WordSet::new();
    let mut pass = CheckPass::new(chunks(), languages, cache, Some(FileId(0)));
    let mut calls = 0;
    while let Some(request) = pass.next(&world, &ignore) {
        calls += 1;
        pass.supply(check(&request), &world, &ignore);
    }
    let (diagnostics, cache) = pass.finish();
    (diagnostics, cache, calls)
}

fn expected(start: usize, message: &str) -> Diagnostic {
    Diagnostic {
        locations: vec![Location { file: FileId(0), start, end: start + 1 }],
        message: String::from(message),
        replacements: vec![String::from("other")],
        rule_description: String::from("description"),
        rule_id: String::from("RULE"),
    }
}

#[test]
fn a_second_check_asks_the_checker_nothing() {
    let languages = Table::new();
    let (first, cache, calls) = run(Cache::new(), &languages);
    assert_eq!(calls, 2);
    assert_eq!(first, vec![expected(0, "abc in en-GB"), expected(3, "def in de-DE")]);
    let (second, cache, calls) = run(cache, &languages);
    assert_eq!(calls, 0);
    assert_eq!(second, first);
    let (third, _, calls) = run(cache, &languages);
    assert_eq!(calls, 0);
    assert_eq!(third, first);
}

#[test]
fn a_change_of_language_is_checked_again() {
    let (_, cache, _) = run(Cache::new(), &Table::new());
    let mut languages = Table::new();
    languages.insert(String::from("en"), String::from("en-US"));
    let (found, _, calls) = run(cache, &languages);
    assert_eq!(calls, 1);
    assert_eq!(found, vec![expected(0, "abc in en-US"), expected(3, "def in de-DE")]);
}

#[test]
fn only_the_chunk_that_changed_is_checked_again() {
    let world = world();
    let ignore = WordSet::new();
    let (_, cache, _) = run(Cache::new(), &Table::new());
    let changed = vec![chunk("abX", "en", 2), chunk("def", "de", 3)];
    let mut pass = CheckPass::new(changed, &Table::new(), cache, None);
    let request = pass.next(&world, &ignore);
    assert_eq!(
        request,
        Some(Request { language: String::from("en-GB"), text: String::from("abX") })
    );
    // Asking again changes nothing.
    assert_eq!(pass.next(&world, &ignore), request);
    pass.supply(vec![], &world, &ignore);
    assert_eq!(pass.next(&world, &ignore), None);
    let (found, mut cache) = pass.finish();
    assert_eq!(found, vec![expected(3, "def in de-DE")]);
    // The new cache holds the chunks of this check and no others.
    assert_eq!(cache.get("abX", "en-GB"), Some(vec![]));
    assert_eq!(cache.get("abc", "en-GB"), None);
    assert!(cache.get("def", "de-DE").is_some());
}

#[test]
fn an_answer_for_a_chunk_that_the_cache_knows_is_not_taken() {
    let world = world();
    let ignore = WordSet::new();
    let (first, cache, _) = run(Cache::new(), &Table::new());
    let mut pass = CheckPass::new(chunks(), &Table::new(), cache, None);
    pass.supply(vec![suggestion(1, 2, "late")], &world, &ignore);
    pass.supply(vec![suggestion(1, 2, "late")], &world, &ignore);
    // No chunk is left: this answer is dropped.
    pass.supply(vec![suggestion(1, 2, "late")], &world, &ignore);
    let (found, _) = pass.finish();
    assert_eq!(found, first);
}

#[test]
fn a_pass_that_is_ended_early_keeps_what_it_found() {
    let world = world();
    let ignore = WordSet::new();
    let mut pass = CheckPass::new(chunks(), &Table::new(), Cache::new(), None);
    let request = pass.next(&world, &ignore).unwrap();
    pass.supply(check(&request), &world, &ignore);
    let (found, mut cache) = pass.finish();
    assert_eq!(found, vec![expected(0, "abc in en-GB")]);
    assert!(cache.get("abc", "en-GB").is_some());
    assert!(cache.get("def", "de-DE").is_none());
}

#[test]
fn the_cache_gives_a_text_once() {
    let mut cache = Cache::new();
    assert_eq!(cache.get("text", "en"), None);
    cache.insert(String::from("text"), String::from("en"), vec![suggestion(0, 1, "a")]);
    cache.insert(String::from("more"), String::from("en"), vec![]);
    assert_eq!(cache.get("text", "en"), Some(vec![suggestion(0, 1, "a")]));
    assert_eq!(cache.get("text", "en"), None);
    assert_eq!(cache.get("more", "en"), Some(vec![]));
}

#[test]
fn the_cache_keeps_one_text_in_two_languages() {
    let mut cache = Cache::new();
    cache.insert(String::from("Hi"), String::from("en-GB"), vec![]);
    cache.insert(String::from("Hi"), String::from("de-DE"), vec![]);
    assert_eq!(cache.get("Hi", "en-GB"), Some(vec![]));
    assert_eq!(cache.get("Hi", "en-GB"), None);
    assert_eq!(cache.get("Hi", "de-DE"), Some(vec![]));
    assert_eq!(cache.get("Hi", "de-DE"), None);
}

#[test]
fn asking_in_another_language_takes_nothing_out_of_the_cache() {
    let mut cache = Cache::new();
    cache.insert(String::from("text"), String::from("en"), vec![suggestion(0, 1, "a")]);
    assert_eq!(cache.get("text", "de"), None);
    assert_eq!(cache.get("other", "en"), None);
    assert_eq!(cache.get("text", "en"), Some(vec![suggestion(0, 1, "a")]));
    cache.insert(String::from("text"), String::from("en"), vec![suggestion(0, 1, "a")]);
    cache.insert(String::from("text"), String::from("de"), vec![suggestion(0, 1, "b")]);
    cache.insert(String::from("text"), String::from("en"), vec![suggestion(0, 1, "c")]);
    assert_eq!(cache.get("text", "de"), Some(vec![suggestion(0, 1, "b")]));
    assert_eq!(cache.get("text", "en"), Some(vec![suggestion(0, 1, "c")]));
    assert_eq!(cache.get("text", "en"), None);
}

#[test]
fn a_second_check_of_one_text_in_two_languages_asks_the_checker_nothing() {
    let world = world();
    let ignore = WordSet::new();
    let both = || vec![chunk("abc", "en", 2), chunk("abc", "de", 2)];
    let mut pass = CheckPass::new(both(), &Table::new(), Cache::new(), Some(FileId(0)));
    let mut calls = 0;
    while let Some(request) = pass.next(&world, &ignore) {
        calls += 1;
        pass.supply(check(&request), &world, &ignore);
    }
    let (first, cache) = pass.finish();
    assert_eq!(calls, 2);
    assert_eq!(first, vec![expected(0, "abc in en-GB"), expected(0, "abc in de-DE")]);

    let mut pass = CheckPass::new(both(), &Table::new(), cache, Some(FileId(0)));
    assert_eq!(pass.next(&world, &ignore), None);
    let (second, mut cache) = pass.finish();
    assert_eq!(second, first);
    assert!(cache.get("abc", "en-GB").is_some());
    assert!(cache.get("abc", "de-DE").is_some());
}

#[test]
fn a_pass_that_is_given_up_hands_the_cache_back_as_it_was() {
    let world = world();
    let ignore = WordSet::new();
    let (first, mut cache, _) = run(Cache::new(), &Table::new());
    cache.insert(String::from("gone"), String::from("en-GB"), vec![suggestion(0, 1, "old")]);
    // The first chunk is as before, the second has changed: the checker
    // is asked about it and fails.
    let changed = vec![chunk("abc", "en", 2), chunk("dXf", "de", 3)];
    let mut pass = CheckPass::new(changed, &Table::new(), cache, Some(FileId(0)));
    let request = pass.next(&world, &ignore);
    assert_eq!(
        request,
        Some(Request { language: String::from("de-DE"), text: String::from("dXf") })
    );
    let (found, mut cache) = pass.abandon();
    // What was found up to there stays.
    assert_eq!(found, vec![first[0].clone()]);
    // The cache is the one of the check before, whole.
    assert_eq!(cache.get("abc", "en-GB"), Some(check(&Request {
        language: String::from("en-GB"),
        text: String::from("abc"),
    })));
    assert!(cache.get("def", "de-DE").is_some());
    assert_eq!(cache.get("gone", "en-GB"), Some(vec![suggestion(0, 1, "old")]));
    assert_eq!(cache.get("dXf", "de-DE"), None);
}

#[test]
fn a_pass_that_is_given_up_at_once_changes_nothing() {
    let mut cache = Cache::new();
    cache.insert(String::from("abc"), String::from("en-GB"), vec![]);
    let pass = CheckPass::new(chunks(), &Table::new(), cache, None);
    let (found, mut cache) = pass.abandon();
    assert_eq!(found, vec![]);
    assert_eq!(cache.get("abc", "en-GB"), Some(vec![]));
}

#[test]
fn languages_can_be_set_by_short_code() {
    let mut languages = Table::new();
    languages.insert(String::from("en"), String::from("en-US"));
    languages.insert(String::from("tlh"), String::from("tlh-Latn"));
    assert_eq!(resolve_language(&Mapping::new("en"), &languages), "en-US");
    assert_eq!(resolve_language(&Mapping::new("tlh"), &languages), "tlh-Latn");
    assert_eq!(resolve_language(&Mapping::new("de"), &languages), "de-DE");
    assert_eq!(resolve_language(&Mapping::new("xx"), &languages), "xx");
}
