use libdonow::date::Date;
use libdonow::file::TodoFile;
use libdonow::parser::TodoErr;

#[test]
fn test_status_toggle() {
    let mut t =
        TodoFile::from_string("x (A) 2024-08-15 2024-09-20 Hello World +hello @wow due:123\n");
    t.change_status(0);
    assert!(!t.get(0).unwrap().completed);
}

#[test]
fn test_list_projects() {
    let t = TodoFile::from_string("x (A) 2024-08-15 2024-09-20 Hello World +hello @wow due:123\n (B) 2024-08-02 Nice +hi @wow\n");
    let projects = t.list_projects();
    assert_eq!(projects, vec!["hello", "hi"]);
}

#[test]
fn test_list_contexts() {
    let t = TodoFile::from_string("x (A) 2024-08-15 2024-09-20 Hello World +hello @wow due:123\n (B) 2024-08-02 Nice +hi @wow\n");
    let contexts = t.list_contexts();
    assert_eq!(contexts, vec!["wow"]);
}

#[test]
fn test_rearrange() {
    let mut t = TodoFile::from_string("x (A) 2024-08-15 2024-09-20 Hello World +hello @wow due:123\n (B) 2024-08-02 Nice +hi @wow\n");
    let rearranged = t.rearrange();
    assert_eq!(rearranged[0].title, "Nice");
}

#[test]
fn test_due_on() {
    let t = TodoFile::from_string("x (A) 2024-08-15 2024-09-20 Hello World +hello @wow due:2021-08-15\n (B) 2024-08-02 Nice +hi @wow due:2021-08-16\n");
    let due_today = t.due_on(Date::from_ymd_opt(2021, 8, 15).unwrap());
    assert_eq!(due_today[0].title, "Hello World");
}

#[test]
fn test_search() {
    let t = TodoFile::from_string("x (A) 2024-08-15 2024-09-20 Hello World +hello @wow due:2021-08-15\n (B) 2024-08-02 Nice +hi @wow due:2021-08-16\n");
    let search = t.search("Hello");
    assert_eq!(search[0].title, "Hello World");
    assert_eq!(search.len(), 1);
}

#[test]
fn unparseable_lines_are_skipped() {
    let t = TodoFile::from_string("first chore\n+noTitleHere\nsecond chore\n");
    assert_eq!(t.len(), 2);
    assert!(!t.is_empty());
    assert_eq!(t.get(0).unwrap().title, "first chore");
    assert_eq!(t.get(1).unwrap().title, "second chore");
    assert!(t.get(2).is_none());
}

#[test]
fn add_update_remove() {
    let mut t = TodoFile::from_string("one thing\n");
    let extra = libdonow::parser::Todo::parse("another thing +extra").unwrap();
    t.add(extra);
    assert_eq!(t.len(), 2);
    let replacement = libdonow::parser::Todo::parse("a third thing").unwrap();
    t.update(1, replacement);
    assert_eq!(t.get(1).unwrap().title, "a third thing");
    t.remove(0);
    assert_eq!(t.len(), 1);
    assert_eq!(t.get(0).unwrap().title, "a third thing");
}

#[test]
fn completed_and_not_completed_split_the_records() {
    let t = TodoFile::from_string("x done chore\nopen chore\nx another done one\n");
    let done = t.completed();
    let open = t.not_completed();
    assert_eq!(done.len(), 2);
    assert_eq!(open.len(), 1);
    assert_eq!(open[0].title, "open chore");
}

#[test]
fn get_project_and_context_filter_the_records() {
    let t = TodoFile::from_string("alpha +home @desk\nbeta +work @desk\ngamma +home @car\n");
    let home = t.get_project("home");
    assert_eq!(home.len(), 2);
    assert_eq!(home[1].title, "gamma");
    let desk = t.get_context("desk");
    assert_eq!(desk.len(), 2);
    assert_eq!(desk[1].title, "beta");
}

#[test]
fn list_tags_and_hashtags() {
    let t = TodoFile::from_string("pay due:123 rent:456\nride due:789 #bike\nsing #song #bike\n");
    assert_eq!(t.list_tags(), vec!["due", "rent"]);
    assert_eq!(t.list_hashtags(), vec!["#bike", "#song"]);
}

#[test]
fn regex_filters_and_rejects_bad_patterns() {
    let t = TodoFile::from_string("Hello World +hello\nNice day @wow\n");
    let hits = t.regex("Hel+o.*World").unwrap();
    assert_eq!(hits.len(), 1);
    assert_eq!(hits[0].title, "Hello World");
    let none = t.regex("^Nothing$").unwrap();
    assert_eq!(none.len(), 0);
    assert!(matches!(t.regex("("), Err(TodoErr::RegexParseErr)));
}

#[test]
fn render_all_writes_one_line_per_record() {
    let t = TodoFile::from_string("x first one\nsecond one +p\n");
    assert_eq!(t.render_all(), "x first one\nsecond one +p\n");
}

#[test]
fn due_today_runs_against_the_clock() {
    let t = TodoFile::from_string("pay rent due:1999-01-01\n");
    assert_eq!(t.due_today().len(), 0);
}
