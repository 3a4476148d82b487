use todo_list::codec::render;
use todo_list::numerals::{format_index, parse_index};
use todo_list::session::{
    add_task, complete_task, format_entry, handle_complete, handle_remove, listing,
    parse_command, remove_task, Command, IndexError,
};
use todo_list::task::Todo;

fn sample(descriptions: &[&str]) -> Vec<Todo> {
    descriptions
        .iter()
        .map(|d| Todo::new(String::from(*d)))
        .collect()
}

fn pairs(tasks: &[Todo]) -> Vec<(String, bool)> {
    tasks.iter().map(|t| (t.task.clone(), t.completed)).collect()
}

#[test]
fn new_task_is_pending() {
    let t = Todo::new(String::from("Buy milk"));
    assert_eq!(t.task, "Buy milk");
    assert!(!t.completed);
}

#[test]
fn parse_command_maps_the_five_menu_digits() {
    assert_eq!(parse_command("1"), Command::AddTask);
    assert_eq!(parse_command("2"), Command::ListTasks);
    assert_eq!(parse_command("3"), Command::CompleteTask);
    assert_eq!(parse_command("4"), Command::RemoveTask);
    assert_eq!(parse_command("5"), Command::Exit);
}

#[test]
fn parse_command_rejects_anything_else() {
    assert_eq!(parse_command(""), Command::Unrecognized);
    assert_eq!(parse_command("6"), Command::Unrecognized);
    assert_eq!(parse_command("12"), Command::Unrecognized);
    assert_eq!(parse_command("add"), Command::Unrecognized);
}

#[test]
fn parse_index_reads_decimal_numerals() {
    assert_eq!(parse_index("1"), Some(1));
    assert_eq!(parse_index("42"), Some(42));
    assert_eq!(parse_index("007"), Some(7));
    assert_eq!(parse_index("+7"), Some(7));
    assert_eq!(parse_index("0"), Some(0));
}

#[test]
fn parse_index_rejects_non_numerals() {
    assert_eq!(parse_index(""), None);
    assert_eq!(parse_index("abc"), None);
    assert_eq!(parse_index("-1"), None);
    assert_eq!(parse_index("1a"), None);
    assert_eq!(parse_index("+"), None);
    assert_eq!(parse_index("1 "), None);
}

#[test]
fn parse_index_rejects_a_numeral_too_large_to_hold() {
    assert_eq!(parse_index(&usize::MAX.to_string()), Some(usize::MAX));
    assert_eq!(parse_index("999999999999999999999999999999"), None);
}

#[test]
fn format_index_prints_decimal_digits() {
    assert_eq!(format_index(0), "0");
    assert_eq!(format_index(7), "7");
    assert_eq!(format_index(12), "12");
    assert_eq!(format_index(1005), "1005");
}

#[test]
fn listing_numbers_tasks_from_one_and_shows_status() {
    let mut tasks = sample(&["Buy milk", "Walk dog"]);
    tasks[1].completed = true;
    let lines = listing(&tasks);
    assert_eq!(lines, vec!["1: Buy milk [Pending]", "2: Walk dog [Done]"]);
}

#[test]
fn listing_of_empty_list_has_no_lines() {
    let tasks: Vec<Todo> = Vec::new();
    assert!(listing(&tasks).is_empty());
}

#[test]
fn format_entry_shows_number_description_and_status() {
    let t = Todo::new(String::from("Buy milk"));
    assert_eq!(format_entry(3, &t), "3: Buy milk [Pending]");
}

#[test]
fn add_appends_a_pending_task() {
    let mut tasks = sample(&["Buy milk"]);
    add_task(&mut tasks, String::from("Walk dog"));
    assert_eq!(
        pairs(&tasks),
        vec![
            (String::from("Buy milk"), false),
            (String::from("Walk dog"), false)
        ]
    );
}

#[test]
fn complete_accepts_indices_one_through_length() {
    let mut tasks = sample(&["a", "b", "c"]);
    assert!(complete_task(&mut tasks, 1));
    assert!(complete_task(&mut tasks, 3));
    assert!(tasks[0].completed);
    assert!(!tasks[1].completed);
    assert!(tasks[2].completed);
}

#[test]
fn complete_rejects_zero_and_beyond_length_without_mutation() {
    let mut tasks = sample(&["a", "b"]);
    let before = pairs(&tasks);
    assert!(!complete_task(&mut tasks, 0));
    assert!(!complete_task(&mut tasks, 3));
    assert_eq!(pairs(&tasks), before);
}

#[test]
fn remove_rejects_zero_and_beyond_length_without_mutation() {
    let mut tasks = sample(&["a", "b"]);
    let before = pairs(&tasks);
    assert!(!remove_task(&mut tasks, 0));
    assert!(!remove_task(&mut tasks, 3));
    assert_eq!(pairs(&tasks), before);
}

#[test]
fn handle_complete_rejects_non_numeric_text_without_mutation() {
    let mut tasks = sample(&["a", "b"]);
    let before = pairs(&tasks);
    assert_eq!(handle_complete(&mut tasks, "abc"), Err(IndexError::NotNumeric));
    assert_eq!(handle_complete(&mut tasks, "-1"), Err(IndexError::NotNumeric));
    assert_eq!(
        handle_complete(&mut tasks, "999999999999999999999999999999"),
        Err(IndexError::NotNumeric)
    );
    assert_eq!(pairs(&tasks), before);
}

#[test]
fn handle_complete_rejects_out_of_range_numbers_without_mutation() {
    let mut tasks = sample(&["a", "b"]);
    let before = pairs(&tasks);
    assert_eq!(handle_complete(&mut tasks, "0"), Err(IndexError::OutOfRange));
    assert_eq!(handle_complete(&mut tasks, "3"), Err(IndexError::OutOfRange));
    assert_eq!(pairs(&tasks), before);
}

#[test]
fn handle_remove_validates_exactly_like_complete() {
    let mut tasks = sample(&["a", "b"]);
    let before = pairs(&tasks);
    assert_eq!(handle_remove(&mut tasks, "two"), Err(IndexError::NotNumeric));
    assert_eq!(handle_remove(&mut tasks, "0"), Err(IndexError::OutOfRange));
    assert_eq!(handle_remove(&mut tasks, "3"), Err(IndexError::OutOfRange));
    assert_eq!(pairs(&tasks), before);
}

#[test]
fn handle_remove_deletes_the_selected_task() {
    let mut tasks = sample(&["a", "b", "c"]);
    assert_eq!(handle_remove(&mut tasks, "2"), Ok(2));
    assert_eq!(
        pairs(&tasks),
        vec![(String::from("a"), false), (String::from("c"), false)]
    );
}

#[test]
fn removing_a_task_shifts_every_later_task_down_by_one() {
    let mut tasks = sample(&["a", "b", "c", "d"]);
    tasks[3].completed = true;
    assert!(remove_task(&mut tasks, 2));
    assert_eq!(
        pairs(&tasks),
        vec![
            (String::from("a"), false),
            (String::from("c"), false),
            (String::from("d"), true)
        ]
    );
}

#[test]
fn completed_flag_survives_later_operations() {
    let mut tasks = sample(&["a", "b", "c"]);
    assert!(complete_task(&mut tasks, 2));
    add_task(&mut tasks, String::from("d"));
    assert!(tasks[1].completed);
    assert!(remove_task(&mut tasks, 1));
    assert!(tasks[0].completed);
    assert_eq!(listing(&tasks)[0], "1: b [Done]");
}

#[test]
fn example_session_from_empty_store() {
    let mut tasks: Vec<Todo> = Vec::new();
    add_task(&mut tasks, String::from("Buy milk"));
    assert_eq!(pairs(&tasks), vec![(String::from("Buy milk"), false)]);
    add_task(&mut tasks, String::from("Walk dog"));
    assert_eq!(
        pairs(&tasks),
        vec![
            (String::from("Buy milk"), false),
            (String::from("Walk dog"), false)
        ]
    );
    assert_eq!(handle_complete(&mut tasks, "1"), Ok(1));
    assert_eq!(
        pairs(&tasks),
        vec![
            (String::from("Buy milk"), true),
            (String::from("Walk dog"), false)
        ]
    );
    assert_eq!(handle_remove(&mut tasks, "1"), Ok(1));
    assert_eq!(pairs(&tasks), vec![(String::from("Walk dog"), false)]);
    assert_eq!(render(&tasks), "Walk dog|false\n");
}
