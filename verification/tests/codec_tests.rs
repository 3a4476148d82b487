use todo_list::codec::{load_from_file_text, load_from_text, parse_line, render};
use todo_list::task::Todo;

fn task(description: &str, completed: bool) -> Todo {
    Todo { task: String::from(description), completed }
}

fn pairs(tasks: &[Todo]) -> Vec<(String, bool)> {
    tasks.iter().map(|t| (t.task.clone(), t.completed)).collect()
}

#[test]
fn render_writes_one_line_per_task() {
    let tasks = vec![task("Buy milk", false), task("Walk dog", true)];
    assert_eq!(render(&tasks), "Buy milk|false\nWalk dog|true\n");
}

#[test]
fn render_of_empty_list_is_empty_text() {
    let tasks: Vec<Todo> = Vec::new();
    assert_eq!(render(&tasks), "");
}

#[test]
fn round_trip_preserves_tasks_and_order() {
    let tasks = vec![
        task("Buy milk", false),
        task("Walk dog", true),
        task("third entry", false),
    ];
    let loaded = load_from_text(&render(&tasks));
    assert_eq!(pairs(&loaded), pairs(&tasks));
}

#[test]
fn reload_after_save_without_mutation_is_idempotent() {
    let text = "a|true\nmalformed line\nb|false|extra\nc|false\n\nd|yes\n";
    let first = load_from_text(text);
    let second = load_from_text(&render(&first));
    assert_eq!(pairs(&second), pairs(&first));
}

#[test]
fn missing_file_loads_as_empty_list() {
    let loaded = load_from_file_text(None);
    assert!(loaded.is_empty());
}

#[test]
fn empty_text_loads_as_empty_list() {
    let loaded = load_from_text("");
    assert!(loaded.is_empty());
}

#[test]
fn existing_file_text_loads_through_the_same_parser() {
    let loaded = load_from_file_text(Some("a|true\nb|false\n"));
    assert_eq!(
        pairs(&loaded),
        vec![(String::from("a"), true), (String::from("b"), false)]
    );
}

#[test]
fn parse_line_reads_two_fields() {
    let t = parse_line("Buy milk|true").unwrap();
    assert_eq!(t.task, "Buy milk");
    assert!(t.completed);
}

#[test]
fn parse_line_treats_any_other_flag_text_as_pending() {
    assert!(!parse_line("a|false").unwrap().completed);
    assert!(!parse_line("a|yes").unwrap().completed);
    assert!(!parse_line("a|True").unwrap().completed);
    assert!(!parse_line("a|").unwrap().completed);
}

#[test]
fn parse_line_accepts_an_empty_description() {
    let t = parse_line("|true").unwrap();
    assert_eq!(t.task, "");
    assert!(t.completed);
}

#[test]
fn parse_line_drops_a_line_without_a_delimiter() {
    assert!(parse_line("no delimiter here").is_none());
    assert!(parse_line("").is_none());
}

#[test]
fn parse_line_drops_a_line_with_extra_fields() {
    assert!(parse_line("a|b|c").is_none());
    assert!(parse_line("a|true|").is_none());
}

#[test]
fn malformed_lines_are_dropped_and_the_rest_kept_in_order() {
    let text = "keep one|false\nbroken\nkeep two|true\nx|y|z\n";
    let loaded = load_from_text(text);
    assert_eq!(
        pairs(&loaded),
        vec![
            (String::from("keep one"), false),
            (String::from("keep two"), true)
        ]
    );
}

#[test]
fn delimiter_in_a_description_corrupts_its_line_on_reload() {
    // The format does not escape the delimiter: the line saved for this
    // task splits into three fields and is dropped by the next load.
    let tasks = vec![task("a|b", false), task("sound", true)];
    let loaded = load_from_text(&render(&tasks));
    assert_eq!(pairs(&loaded), vec![(String::from("sound"), true)]);
}

#[test]
fn text_without_final_newline_still_loads_its_last_line() {
    let loaded = load_from_text("a|true\nb|false");
    assert_eq!(
        pairs(&loaded),
        vec![(String::from("a"), true), (String::from("b"), false)]
    );
}
