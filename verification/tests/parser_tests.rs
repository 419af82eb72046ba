use libdonow::date::Date;
use libdonow::parser::{Todo, TodoErr};

#[test]
fn test_project_parse() {
    let t = Todo::new("x (A) 2024-08-15 2024-09-20 Hello World +hello @wow due:123");
    assert_eq!(t.parse_project().unwrap(), Some("hello".to_string()));
}

#[test]
fn test_context_parse() {
    let t = Todo::new("x (A) 2024-08-15 2024-09-20 Hello World +hello @wow due:123");
    assert_eq!(t.parse_context().unwrap(), Some("wow".to_string()));
}

#[test]
fn test_tags_parse() {
    let t = Todo::new("x (A) 2024-08-15 2024-09-20 Hello World +hello @wow due:123 some:word");
    let map = t.parse_tags().unwrap();
    assert_eq!(map.len(), 2);
    assert_eq!(map.get("some").unwrap(), "word");
    assert_eq!(map.get("due").unwrap(), "123");
}

#[test]
fn test_priority_parse() {
    let t = Todo::new("x (A) 2024-08-15 2024-09-20 Hello World +hello @wow due:123 some:word");
    assert_eq!(t.parse_priority().unwrap(), Some("A".to_string()));
}

#[test]
fn test_title_parse() {
    let t = Todo::new("x (A) 2024-08-15 2024-09-20 Hello World +hello @wow due:123 some:word");
    assert_eq!(t.parse_title().unwrap(), "Hello World".to_string());
}

#[test]
fn test_dates_parse() {
    let t = Todo::new("x (A) 2024-08-15 2024-09-20 Hello World +hello @wow due:123 some:word");
    let dates = t.parse_dates().unwrap();
    assert_eq!(dates.0.unwrap(), Date::from_ymd_opt(2024, 8, 15).unwrap());
    assert_eq!(dates.1.unwrap(), Date::from_ymd_opt(2024, 9, 20).unwrap());
}

#[test]
fn test_due_parse() {
    let t =
        Todo::new("x (A) 2024-08-15 2024-09-20 Hello World +hello @wow due:2021-08-15 some:word");
    assert_eq!(
        t.parse_due().unwrap().unwrap(),
        Date::from_ymd_opt(2021, 8, 15).unwrap()
    );
}

#[test]
fn test_hashtags_parse() {
    let t = Todo::new("x (A) 2024-08-15 2024-09-20 Hello World +hello @wow due:2021-08-15 some:word #hello #world");
    assert_eq!(
        t.parse_hashtags().unwrap(),
        vec!["#hello".to_string(), "#world".to_string()]
    );
}

#[test]
fn test_smart_parse() {
    let t = Todo::smart_parse(
        "x (A) 2024-08-15 2024-09-20 Hello World +hello @wow due:2021-08-15 some:word",
    )
    .unwrap();
    assert_eq!(t.creation.unwrap(), Date::from_ymd_opt(2024, 8, 15).unwrap());
    assert_eq!(t.priority.unwrap(), "A".to_string());
}

#[test]
fn test_toggle_status() {
    let mut t =
        Todo::parse("x (A) 2024-08-15 2024-09-20 Hello World +hello @wow due:2021-08-15 some:word")
            .unwrap();
    t.toggle_status();
    assert!(!t.completed);
}

#[test]
fn test_display() {
    let mut t =
        Todo::new("x (A) 2024-08-15 2024-09-20 Hello World +hello @wow due:2021-08-15 some:word");
    match t.fill() {
        Ok(_) => {}
        Err(e) => println!("{:?}", e),
    }
    assert_eq!(
        t.render(),
        "x (A) 2024-09-20 2024-08-15 Hello World +hello @wow due:2021-08-15 some:word"
    );
}

#[test]
fn full_parse_of_a_marked_line() {
    let t = Todo::parse("x (A) 2024-08-15 2024-09-20 Hello World +hello @wow due:123").unwrap();
    assert!(t.completed);
    assert_eq!(t.priority, Some("A".to_string()));
    assert_eq!(t.creation, Date::from_ymd_opt(2024, 8, 15));
    assert_eq!(t.completion, Date::from_ymd_opt(2024, 9, 20));
    assert_eq!(t.title, "Hello World");
    assert_eq!(t.project, Some("hello".to_string()));
    assert_eq!(t.context, Some("wow".to_string()));
    assert_eq!(t.others.len(), 1);
    assert_eq!(t.others.get("due").unwrap(), "123");
}

#[test]
fn tags_of_a_due_line() {
    let t = Todo::new("due:2024-01-01 some:word");
    let map = t.parse_tags().unwrap();
    assert_eq!(map.len(), 2);
    assert_eq!(map.get("due").unwrap(), "2024-01-01");
    assert_eq!(map.get("some").unwrap(), "word");
}

#[test]
fn due_date_found_and_absent() {
    let t = Todo::new("clean the attic due:2021-08-15 some:word");
    assert_eq!(
        t.parse_due().unwrap().unwrap(),
        Date::from_ymd_opt(2021, 8, 15).unwrap()
    );
    let u = Todo::new("clean the attic some:word");
    assert_eq!(u.parse_due().unwrap(), None);
}

#[test]
fn a_line_with_only_a_project_has_no_title() {
    match Todo::parse("+onlyaproject") {
        Err(TodoErr::NoTitle) => {}
        other => panic!("expected the missing-title error, got {:?}", other),
    }
}

#[test]
fn a_date_shaped_token_must_name_a_real_day() {
    match Todo::parse("pay rent 2024-13-01 soon") {
        Err(TodoErr::InvalidDate) => {}
        other => panic!("expected the invalid-date error, got {:?}", other),
    }
    assert_eq!(
        Todo::parse("pay rent 2024-02-29 soon").unwrap().creation,
        Date::from_ymd_opt(2024, 2, 29)
    );
    assert!(matches!(
        Todo::parse("pay rent 2023-02-29 soon"),
        Err(TodoErr::InvalidDate)
    ));
}

#[test]
fn the_first_of_several_projects_wins() {
    let t = Todo::parse("work on +first then +second").unwrap();
    assert_eq!(t.project, Some("first".to_string()));
}

#[test]
fn the_marker_needs_following_whitespace() {
    let t = Todo::parse("xylophone practice").unwrap();
    assert!(!t.completed);
    assert_eq!(t.title, "xylophone practice");
    let u = Todo::parse("x xylophone practice").unwrap();
    assert!(u.completed);
}

#[test]
fn toggling_twice_restores_the_record() {
    let mut t = Todo::parse("x 2024-08-15 write more tests +tests").unwrap();
    let before_completed = t.completed;
    let before_title = t.title.clone();
    t.toggle_status();
    t.toggle_status();
    assert_eq!(t.completed, before_completed);
    assert_eq!(t.title, before_title);
    assert_eq!(t.project, Some("tests".to_string()));
}

#[test]
fn rendering_a_plain_record() {
    let t = Todo::parse("water the plants @home every:3d").unwrap();
    assert_eq!(t.render(), "water the plants @home every:3d");
}

#[test]
fn reparsing_a_rendered_line_keeps_the_fields() {
    let t = Todo::parse("x (B) 2024-05-01 file the report +paper @desk due:123").unwrap();
    let u = Todo::parse(&t.render()).unwrap();
    assert_eq!(u.completed, t.completed);
    assert_eq!(u.priority, t.priority);
    assert_eq!(u.creation, t.creation);
    assert_eq!(u.completion, t.completion);
    assert_eq!(u.title, t.title);
    assert_eq!(u.project, t.project);
    assert_eq!(u.context, t.context);
    assert_eq!(u.others.len(), t.others.len());
    assert_eq!(u.others.get("due").unwrap(), "123");
}

#[test]
fn summary_lists_the_fields() {
    let t = Todo::parse("x (A) 2024-08-15 call the bank +money due:123").unwrap();
    let s = t.summary();
    assert_eq!(
        s,
        "Title: call the bank\nCompleted: Yes\nPriority: A\nProject: money\nCreation: 2024-08-15\ndue: 123\n"
    );
}

#[test]
fn a_later_duplicate_tag_key_overwrites_the_value() {
    let t = Todo::new("work k:1 other:x k:2");
    let map = t.parse_tags().unwrap();
    assert_eq!(map.len(), 2);
    assert_eq!(map.get("k").unwrap(), "2");
    assert_eq!(map.get("other").unwrap(), "x");
}

#[test]
fn a_due_token_with_an_unreal_day_is_an_error() {
    let t = Todo::new("pay rent due:2024-13-01");
    assert!(matches!(t.parse_due(), Err(TodoErr::InvalidDate)));
}
