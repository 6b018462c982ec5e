use todo_store::display;
use todo_store::FilterType;
use todo_store::Priority;
use todo_store::Status;
use todo_store::TodoItem;

#[test]
fn test_time_to_string() {
    assert_eq!(display::time_to_string(0), "0");
    assert_eq!(display::time_to_string(7), "7");
    assert_eq!(display::time_to_string(42), "42");
    assert_eq!(display::time_to_string(1700000000), "1700000000");
    assert_eq!(display::time_to_string(u64::MAX), "18446744073709551615");
}

#[test]
fn test_title_filter_is_case_insensitive() {
    let item = TodoItem::new("Hello World");
    // matches only because both sides are folded to lowercase
    assert!(display::item_matches_filter(
        &item,
        FilterType::Title,
        "WORLD",
        None,
        None
    ));
    assert!(!display::item_matches_filter(
        &item,
        FilterType::Title,
        "mars",
        None,
        None
    ));
    // an empty filter value matches everything
    assert!(display::item_matches_filter(
        &item,
        FilterType::Title,
        "",
        None,
        None
    ));
}

#[test]
fn test_description_filter() {
    let with = TodoItem::new("a").with_description("Buy Groceries");
    let without = TodoItem::new("b");
    assert!(display::item_matches_filter(
        &with,
        FilterType::Description,
        "groceries",
        None,
        None
    ));
    assert!(!display::item_matches_filter(
        &without,
        FilterType::Description,
        "groceries",
        None,
        None
    ));
}

#[test]
fn test_combined_status_and_priority_filter() {
    let mut a = TodoItem::new("both");
    a.set_status(Status::Completed);
    a.set_priority(Priority::High);
    let mut b = TodoItem::new("only status");
    b.set_status(Status::Completed);
    let mut c = TodoItem::new("only priority");
    c.set_priority(Priority::High);
    let ids = (a.id(), b.id(), c.id());

    let items = vec![a, b, c];
    let hits = display::filter_items(
        &items,
        FilterType::NoFilter,
        "",
        Some(Status::Completed),
        Some(Priority::High),
    );
    assert_eq!(hits.len(), 1);
    assert_eq!(hits[0].id(), ids.0);

    // no match is an empty answer, not an error
    let none = display::filter_items(
        &items,
        FilterType::NoFilter,
        "",
        Some(Status::InProgress),
        Some(Priority::Low),
    );
    assert!(none.is_empty());
}

#[test]
fn test_filter_cycles() {
    assert_eq!(
        display::cycle_status_filter(None),
        Some(Status::NotStarted)
    );
    assert_eq!(
        display::cycle_status_filter(Some(Status::Completed)),
        None
    );
    assert_eq!(
        display::cycle_priority_filter(Some(Priority::Medium)),
        Some(Priority::High)
    );
    assert_eq!(display::cycle_priority_filter(Some(Priority::High)), None);
    assert_eq!(
        display::cycle_filter_type(FilterType::NoFilter),
        FilterType::Title
    );
    assert_eq!(
        display::cycle_filter_type(FilterType::Title),
        FilterType::Description
    );
    assert_eq!(
        display::cycle_filter_type(FilterType::Description),
        FilterType::NoFilter
    );
    assert_eq!(
        display::cycle_filter_type(FilterType::Combined),
        FilterType::NoFilter
    );
}
