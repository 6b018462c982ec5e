use todo_store::Priority;
use todo_store::Status;
use todo_store::TodoItem;

#[test]
fn test_create_todo_item() {
    let item = TodoItem::new("Test Task");
    assert_eq!(item.title(), "Test Task");
    assert_eq!(item.status(), Status::NotStarted);
    assert_eq!(item.priority(), Priority::Medium);
}

#[test]
fn test_status_changes() {
    let mut item = TodoItem::new("Task");
    assert!(!item.is_completed());

    item.set_status(Status::InProgress);
    assert_eq!(item.status(), Status::InProgress);
    assert!(!item.is_completed());

    item.mark_completed();
    assert!(item.is_completed());
}

#[test]
fn test_metadata() {
    let mut item = TodoItem::new("Task with metadata");

    item.set_metadata("category", "work");
    item.set_metadata("context", "office");

    assert_eq!(item.get_metadata("category"), Some(&"work".to_string()));
    assert_eq!(item.get_metadata("context"), Some(&"office".to_string()));

    item.remove_metadata("context");
    assert!(item.get_metadata("context").is_none());
}

#[test]
fn test_setter_getter_round_trip() {
    let mut item = TodoItem::new("initial");

    item.set_title("Write the report");
    assert_eq!(item.title(), "Write the report");

    item.set_description(Some("due before the meeting"));
    assert_eq!(item.description(), Some("due before the meeting"));
    item.set_description(None);
    assert_eq!(item.description(), None);

    item.set_status(Status::InProgress);
    assert_eq!(item.status(), Status::InProgress);

    item.set_priority(Priority::High);
    assert_eq!(item.priority(), Priority::High);

    item.set_due_date(Some(1700000000));
    assert_eq!(item.due_date(), Some(1700000000));
    item.set_due_date(None);
    assert_eq!(item.due_date(), None);

    item.set_parent_id(Some(42));
    assert_eq!(item.parent_id(), Some(42));
    item.set_parent_id(None);
    assert_eq!(item.parent_id(), None);

    item.set_metadata("key", "first");
    item.set_metadata("key", "second");
    assert_eq!(item.get_metadata("key"), Some(&"second".to_string()));
    assert_eq!(item.metadata().len(), 1);
    assert_eq!(item.remove_metadata("key"), Some("second".to_string()));
    assert_eq!(item.remove_metadata("key"), None);
}

#[test]
fn test_builders() {
    let item = TodoItem::new("builder")
        .with_description("described")
        .with_priority(Priority::Low)
        .with_status(Status::Completed)
        .with_due_date(123)
        .with_parent(7);
    assert_eq!(item.description(), Some("described"));
    assert_eq!(item.priority(), Priority::Low);
    assert_eq!(item.status(), Status::Completed);
    assert_eq!(item.due_date(), Some(123));
    assert_eq!(item.parent_id(), Some(7));
}

#[test]
fn test_overdue() {
    let mut item = TodoItem::new("deadline");
    assert!(!item.is_overdue());

    item.set_due_date(Some(500));
    assert!(item.is_overdue_at(501));
    assert!(!item.is_overdue_at(500));
    assert!(!item.is_overdue_at(0));
    // one second after the epoch lies firmly in the past
    assert!(item.is_overdue());

    item.mark_completed();
    assert!(!item.is_overdue_at(501));
    assert!(!item.is_overdue());
}

#[test]
fn test_defaults_and_labels() {
    assert_eq!(Status::default(), Status::NotStarted);
    assert_eq!(Priority::default(), Priority::Medium);
    assert_eq!(Priority::Low.label(), "Low");
    assert_eq!(Priority::Medium.label(), "Medium");
    assert_eq!(Priority::High.label(), "High");
    assert_eq!(Status::NotStarted.label(), "Not Started");
    assert_eq!(Status::InProgress.label(), "In Progress");
    assert_eq!(Status::Completed.label(), "Completed");
    assert!(Priority::Low.rank() < Priority::Medium.rank());
    assert!(Priority::Medium.rank() < Priority::High.rank());
}

#[test]
fn test_clone_keeps_fields() {
    let mut item = TodoItem::new("clone me");
    item.set_description(Some("text"));
    item.set_metadata("a", "1");
    let copy = item.clone();
    assert_eq!(copy.id(), item.id());
    assert_eq!(copy.title(), "clone me");
    assert_eq!(copy.description(), Some("text"));
    assert_eq!(copy.get_metadata("a"), Some(&"1".to_string()));
}
