use typst_languagetool::editor::{quick_fixes, uri_path, CheckData, QuickFix, Schedule};

#[test]
fn links_are_decoded() {
    assert_eq!(uri_path("/home/me/doc.typ", false), Some(String::from("/home/me/doc.typ")));
    assert_eq!(
        uri_path("/home/a%20b/%C3%A4%2F.typ", false),
        Some(String::from("/home/a b/ä/.typ"))
    );
    assert_eq!(uri_path("/c%3A/doc.typ", true), Some(String::from("c:/doc.typ")));
    assert_eq!(uri_path("/c%3A/doc.typ", false), Some(String::from("/c:/doc.typ")));
    assert_eq!(uri_path("c:/doc.typ", true), Some(String::from("c:/doc.typ")));
    assert_eq!(uri_path("", true), Some(String::new()));
    assert_eq!(uri_path("/", true), Some(String::new()));
    // A lone sign is no code.
    assert_eq!(uri_path("100%", false), Some(String::from("100%")));
    assert_eq!(uri_path("%zz", false), Some(String::from("%zz")));
}

#[test]
fn a_link_that_is_no_text_has_no_path() {
    assert_eq!(uri_path("/a%FFb", false), None);
    assert_eq!(uri_path("%C3", false), None);
}

#[test]
fn one_edit_for_each_replacement() {
    let fixes = quick_fixes(&vec![String::from("there"), String::from("their"), String::new()]);
    assert_eq!(
        fixes,
        vec![
            QuickFix {
                title: String::from("Replace with \"there\""),
                new_text: String::from("there"),
                preferred: true,
            },
            QuickFix {
                title: String::from("Replace with \"their\""),
                new_text: String::from("their"),
                preferred: false,
            },
            QuickFix {
                title: String::from("Replace with \"\""),
                new_text: String::new(),
                preferred: false,
            },
        ]
    );
    assert_eq!(quick_fixes(&vec![]), vec![]);
}

fn check(check_time: u64, name: &str) -> CheckData {
    CheckData { check_time, url: format!("file:///{name}"), path: format!("/{name}") }
}

#[test]
fn a_newer_change_takes_the_place_of_the_check_that_is_due() {
    let mut schedule = Schedule::new(Some(300));
    assert_eq!(schedule.deadline(), None);
    assert_eq!(schedule.take_due(1000), None);
    schedule.changed(1000, String::from("file:///a"), String::from("/a"));
    assert_eq!(schedule.deadline(), Some(1300));
    schedule.changed(1200, String::from("file:///b"), String::from("/b"));
    assert_eq!(schedule.deadline(), Some(1500));
    assert_eq!(schedule.take_due(1499), None);
    assert_eq!(schedule.deadline(), Some(1500));
    assert_eq!(schedule.take_due(1500), Some(check(1500, "b")));
    assert_eq!(schedule.deadline(), None);
    assert_eq!(schedule.take_due(9999), None);
}

#[test]
fn opening_and_saving_check_at_once() {
    let mut schedule = Schedule::new(None);
    schedule.changed(10, String::from("file:///a"), String::from("/a"));
    assert_eq!(schedule.deadline(), None);
    schedule.request(20, String::from("file:///a"), String::from("/a"));
    assert_eq!(schedule.deadline(), Some(20));
    // Without a delay a change leaves the check that is due as it is.
    schedule.changed(30, String::from("file:///b"), String::from("/b"));
    assert_eq!(schedule.take_due(20), Some(check(20, "a")));
}

#[test]
fn the_delay_stops_at_the_end_of_time() {
    let mut schedule = Schedule::new(Some(u64::MAX));
    schedule.changed(5, String::from("file:///a"), String::from("/a"));
    assert_eq!(schedule.deadline(), Some(u64::MAX));
}
