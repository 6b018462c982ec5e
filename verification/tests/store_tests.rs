use todo_store::MoveError;
use todo_store::Priority;
use todo_store::Status;
use todo_store::TodoItem;
use todo_store::TodoList;

#[test]
fn test_create_and_add_items() {
    let mut list = TodoList::new("Test List");

    // Create an item via TodoList
    let id1 = list.create_item("Task 1");

    // Create and add an item via TodoItem
    let item2 = TodoItem::new("Task 2");
    let id2 = list.add_item(item2);

    assert_eq!(list.len(), 2);
    assert_eq!(list.get_item(id1).unwrap().title(), "Task 1");
    assert_eq!(list.get_item(id2).unwrap().title(), "Task 2");
}

#[test]
fn test_hierarchical_structure() {
    let mut list = TodoList::new("Hierarchy Test");

    // Create parent task
    let parent_id = list.create_item("Parent Task");

    // Create child tasks
    let child1_id = list.create_item("Child 1");
    let child2_id = list.create_item("Child 2");

    // Move children under the parent
    list.move_item(child1_id, Some(parent_id)).unwrap();
    list.move_item(child2_id, Some(parent_id)).unwrap();

    // Check parent-child relationships
    assert_eq!(list.children(parent_id).len(), 2);
    assert!(list.child_ids(parent_id).contains(&child1_id));
    assert!(list.child_ids(parent_id).contains(&child2_id));

    // Verify hierarchy view
    let hierarchy = list.hierarchical_view();
    assert_eq!(hierarchy.len(), 3);

    // Parent should be first, at depth 0
    assert_eq!(hierarchy[0].0.id(), parent_id);
    assert_eq!(hierarchy[0].1, 0);

    // Children should follow, at depth 1
    assert_eq!(hierarchy[1].1, 1);
    assert_eq!(hierarchy[2].1, 1);
}

#[test]
fn test_remove_item_with_children() {
    let mut list = TodoList::new("Removal Test");

    // Create parent task
    let parent_id = list.create_item("Parent Task");

    // Create child tasks
    let child1_id = list.create_item("Child 1");
    let child2_id = list.create_item("Child 2");

    // Move children under the parent
    list.move_item(child1_id, Some(parent_id)).unwrap();
    list.move_item(child2_id, Some(parent_id)).unwrap();

    // Remove the parent (should also remove children)
    list.remove_item(parent_id);

    // List should be empty
    assert_eq!(list.len(), 0);
    assert!(list.get_item(parent_id).is_none());
    assert!(list.get_item(child1_id).is_none());
    assert!(list.get_item(child2_id).is_none());
}

#[test]
fn test_filtering() {
    let mut list = TodoList::new("Filter Test");

    // Create items with different statuses and priorities
    let id1 = list.create_item("High Priority Task");
    let id2 = list.create_item("Medium Priority Task");
    let id3 = list.create_item("Completed Task");

    // Set properties
    list.get_item_mut(id1).unwrap().set_priority(Priority::High);
    list.get_item_mut(id2).unwrap().set_priority(Priority::Medium);
    list.get_item_mut(id3).unwrap().set_status(Status::Completed);

    // Test filters
    assert_eq!(list.items_by_priority(Priority::High).len(), 1);
    assert_eq!(list.items_by_priority(Priority::Medium).len(), 2);
    assert_eq!(list.completed_items().len(), 1);
    assert_eq!(list.incomplete_items().len(), 2);
}

#[test]
fn test_cycle_prevention() {
    let mut list = TodoList::new("Cycle Test");

    // Create a chain of tasks: A -> B -> C
    let id_a = list.create_item("Task A");
    let id_b = list.create_item("Task B");
    let id_c = list.create_item("Task C");

    list.move_item(id_b, Some(id_a)).unwrap();
    list.move_item(id_c, Some(id_b)).unwrap();

    // Trying to make A a child of C would create a cycle
    assert!(list.move_item(id_a, Some(id_c)).is_err());
}

#[test]
fn test_move_and_children_scenario() {
    // Two roots; after one move the child sits under the new parent, and
    // the reverse move is rejected as a cycle.
    let mut list = TodoList::new("Scenario");
    let t1 = list.create_item("A");
    let t2 = list.create_item("B");

    assert!(list.move_item(t2, Some(t1)).is_ok());
    let children = list.children(t1);
    assert_eq!(children.len(), 1);
    assert_eq!(children[0].id(), t2);
    assert_eq!(list.get_item(t2).unwrap().parent_id(), Some(t1));

    assert_eq!(list.move_item(t1, Some(t2)), Err(MoveError::CycleDetected));
}

#[test]
fn test_move_errors() {
    let mut list = TodoList::new("Errors");
    let a = list.create_item("a");

    assert_eq!(
        list.move_item(a.wrapping_add(1), None),
        Err(MoveError::ItemNotFound)
    );
    assert_eq!(
        list.move_item(a, Some(a.wrapping_add(1))),
        Err(MoveError::ParentNotFound)
    );
    assert_eq!(list.move_item(a, Some(a)), Err(MoveError::CycleDetected));
    assert_eq!(
        MoveError::CycleDetected.message(),
        "moving this item would create a cycle"
    );
    assert_eq!(MoveError::ItemNotFound.message(), "item not found");
    assert_eq!(MoveError::ParentNotFound.message(), "parent item not found");
}

#[test]
fn test_remove_absent_is_noop() {
    let mut list = TodoList::new("Noop");
    let a = list.create_item("a");
    assert!(list.remove_item(a.wrapping_add(1)).is_none());
    assert_eq!(list.len(), 1);
    let removed = list.remove_item(a).unwrap();
    assert_eq!(removed.title(), "a");
    assert_eq!(list.len(), 0);
}

#[test]
fn test_remove_subtree_counts() {
    // Removing a parent takes exactly its subtree away; the sibling
    // subtree stays whole.
    let mut list = TodoList::new("Counts");
    let top = list.create_item("top");
    let left = list.create_item("left");
    let right = list.create_item("right");
    let leaf = list.create_item("leaf");
    list.move_item(left, Some(top)).unwrap();
    list.move_item(right, Some(top)).unwrap();
    list.move_item(leaf, Some(left)).unwrap();
    let other = list.create_item("other");

    assert_eq!(list.len(), 5);
    let removed = list.remove_item(left).unwrap();
    assert_eq!(removed.id(), left);
    assert_eq!(list.len(), 3);
    assert!(list.get_item(leaf).is_none());
    assert!(list.get_item(top).is_some());
    assert!(list.get_item(right).is_some());
    assert!(list.get_item(other).is_some());
    assert_eq!(list.child_ids(top), vec![right]);
}

#[test]
fn test_preorder_traversal() {
    // A -> {B, C}, B -> {D}: the one ordering consistent with pre-order
    // is A, B, D, C at depths 0, 1, 2, 1; nothing appears twice.
    let mut list = TodoList::new("Preorder");
    let a = list.create_item("A");
    let b = list.create_item("B");
    let c = list.create_item("C");
    let d = list.create_item("D");
    list.move_item(b, Some(a)).unwrap();
    list.move_item(c, Some(a)).unwrap();
    list.move_item(d, Some(b)).unwrap();

    let view = list.hierarchical_view();
    let got: Vec<(u128, usize)> = view.iter().map(|e| (e.0.id(), e.1)).collect();
    assert_eq!(got, vec![(a, 0), (b, 1), (d, 2), (c, 1)]);
}

#[test]
fn test_move_before_same_parent() {
    // Bucket [p, target, q, x]: after move_before(x, target) the bucket
    // reads [p, x, target, q].
    let mut list = TodoList::new("Reorder");
    let root = list.create_item("root");
    let p = list.create_item("p");
    let target = list.create_item("target");
    let q = list.create_item("q");
    let x = list.create_item("x");
    list.move_item(p, Some(root)).unwrap();
    list.move_item(target, Some(root)).unwrap();
    list.move_item(q, Some(root)).unwrap();
    list.move_item(x, Some(root)).unwrap();
    assert_eq!(list.child_ids(root), vec![p, target, q, x]);

    list.move_item_before(x, target).unwrap();
    assert_eq!(list.child_ids(root), vec![p, x, target, q]);
}

#[test]
fn test_move_before_across_parents() {
    let mut list = TodoList::new("Reorder across");
    let left = list.create_item("left");
    let right = list.create_item("right");
    let a = list.create_item("a");
    let b = list.create_item("b");
    list.move_item(a, Some(left)).unwrap();
    list.move_item(b, Some(right)).unwrap();

    list.move_item_before(b, a).unwrap();
    assert_eq!(list.child_ids(left), vec![b, a]);
    assert!(list.child_ids(right).is_empty());
    assert_eq!(list.get_item(b).unwrap().parent_id(), Some(left));

    // re-filing under a descendant is still rejected
    assert_eq!(list.move_item_before(left, a), Err(MoveError::CycleDetected));
}

#[test]
fn test_insert_with_dangling_parent() {
    let mut list = TodoList::new("Dangling");
    let mut stray = TodoItem::new("stray");
    stray.set_parent_id(Some(424242));
    let sid = list.add_item(stray);

    assert_eq!(list.len(), 1);
    assert!(list.get_item(sid).is_some());
    // the item hangs under an unknown parent: no root, no reachable child
    assert!(list.root_items().is_empty());
    assert!(list.hierarchical_view().is_empty());
    assert_eq!(list.child_ids(424242), vec![sid]);
}

#[test]
fn test_preexisting_cycle_fails_closed() {
    // Two caller-built items that point at each other can be inserted;
    // the ancestor walk then refuses to file anything below them, and a
    // removal still takes the whole knot away.
    let mut list = TodoList::new("Knot");
    let mut first = TodoItem::new("first");
    let mut second = TodoItem::new("second");
    let fid = first.id();
    let sid = second.id();
    first.set_parent_id(Some(sid));
    second.set_parent_id(Some(fid));
    list.add_item(first);
    list.add_item(second);

    let outsider = list.create_item("outsider");
    assert_eq!(
        list.move_item(outsider, Some(fid)),
        Err(MoveError::CycleDetected)
    );

    assert!(list.remove_item(fid).is_some());
    assert_eq!(list.len(), 1);
    assert!(list.get_item(sid).is_none());
}

#[test]
fn test_replace_and_find() {
    let mut list = TodoList::new("Replace");
    let parent = list.create_item("parent");
    let child = list.create_item("child");
    list.move_item(child, Some(parent)).unwrap();

    assert_eq!(list.find_item_index(&child), Some(child));
    assert_eq!(list.find_item_index(&child.wrapping_add(1)), None);

    let replacement = TodoItem::new("rewritten").with_priority(Priority::High);
    let stored = list.replace_item_at_index(child, replacement).unwrap();
    assert_eq!(stored.id(), child);
    assert_eq!(stored.parent_id(), Some(parent));
    assert_eq!(stored.title(), "rewritten");
    assert_eq!(list.get_item(child).unwrap().title(), "rewritten");
    assert_eq!(list.child_ids(parent), vec![child]);

    assert!(list
        .replace_item_at_index(child.wrapping_add(1), TodoItem::new("nobody"))
        .is_none());
}

#[test]
fn test_names_and_all_items() {
    let mut list = TodoList::new("first name");
    assert_eq!(list.name(), "first name");
    list.set_name("second name");
    assert_eq!(list.name(), "second name");

    assert!(list.is_empty());
    let a = list.create_item("a");
    let b = list.create_item("b");
    assert!(!list.is_empty());
    let all = list.all_items();
    assert_eq!(all.len(), 2);
    assert_eq!(all[0].id(), a);
    assert_eq!(all[1].id(), b);
}

#[test]
fn test_filter_items_closure() {
    let mut list = TodoList::new("Closure filter");
    let a = list.create_item("keep me");
    let _b = list.create_item("drop me");
    list.get_item_mut(a).unwrap().set_priority(Priority::High);

    let kept = list.filter_items(|item: &TodoItem| item.priority() == Priority::High);
    assert_eq!(kept.len(), 1);
    assert_eq!(kept[0].id(), a);
}

#[test]
fn test_move_to_root_and_within_parent() {
    let mut list = TodoList::new("Re-rooting");
    let a = list.create_item("a");
    let b = list.create_item("b");
    list.move_item(b, Some(a)).unwrap();
    assert_eq!(list.root_item_ids(), vec![a]);

    // back to the top level: b becomes a root again
    list.move_item(b, None).unwrap();
    assert_eq!(list.get_item(b).unwrap().parent_id(), None);
    assert_eq!(list.root_item_ids(), vec![a, b]);
    assert!(list.child_ids(a).is_empty());

    // a move within the same parent re-files the item at the bucket's end
    list.move_item(a, None).unwrap();
    assert_eq!(list.root_item_ids(), vec![b, a]);
}

#[test]
fn test_index_stays_consistent_through_mutations() {
    // After an arbitrary mix of create/insert/move/remove, every live id
    // sits in exactly one bucket, and that bucket's key is the item's own
    // parent_id.
    let mut list = TodoList::new("Consistency");
    let a = list.create_item("a");
    let b = list.create_item("b");
    let c = list.create_item("c");
    let mut stray = TodoItem::new("stray");
    stray.set_parent_id(Some(999999));
    let s = list.add_item(stray);
    list.move_item(b, Some(a)).unwrap();
    list.move_item(c, Some(b)).unwrap();
    list.move_item(c, Some(a)).unwrap();
    list.move_item_before(c, b).unwrap();
    list.remove_item(b);

    let live: Vec<u128> = list.all_items().iter().map(|it| it.id()).collect();
    assert_eq!(live.len(), 3);
    for &id in &live {
        let parent = list.get_item(id).unwrap().parent_id();
        // the item is filed under its own parent key...
        let bucket = match parent {
            Some(p) => list.child_ids(p),
            None => list.root_item_ids(),
        };
        assert_eq!(bucket.iter().filter(|&&x| x == id).count(), 1);
        // ...and under no other live key nor the root key
        let mut elsewhere = 0;
        if parent.is_some() {
            elsewhere += list.root_item_ids().iter().filter(|&&x| x == id).count();
        }
        for &other in &live {
            if Some(other) != parent {
                elsewhere += list.child_ids(other).iter().filter(|&&x| x == id).count();
            }
        }
        assert_eq!(elsewhere, 0);
    }
    // the stray still hangs under its dangling key
    assert_eq!(list.get_item(s).unwrap().parent_id(), Some(999999));
}

#[test]
fn test_sorted_items_stable() {
    let mut list = TodoList::new("Sort");
    let a = list.create_item("a"); // Medium
    let b = list.create_item("b");
    let c = list.create_item("c");
    let d = list.create_item("d");
    list.get_item_mut(b).unwrap().set_priority(Priority::High);
    list.get_item_mut(c).unwrap().set_priority(Priority::Low);
    list.get_item_mut(d).unwrap().set_priority(Priority::Low);

    let sorted = list.sorted_items(|it: &TodoItem| it.priority().rank() as u64);
    let ids: Vec<u128> = sorted.iter().map(|it| it.id()).collect();
    // ascending by rank; c before d because equal keys keep stored order
    assert_eq!(ids, vec![c, d, a, b]);
}

#[test]
fn test_overdue_items() {
    let mut list = TodoList::new("Overdue");
    let late = list.create_item("late");
    let done = list.create_item("done late");
    let future = list.create_item("future");
    list.get_item_mut(late).unwrap().set_due_date(Some(1));
    list.get_item_mut(done).unwrap().set_due_date(Some(1));
    list.get_item_mut(done).unwrap().set_status(Status::Completed);
    list.get_item_mut(future).unwrap().set_due_date(Some(u64::MAX));

    let overdue = list.overdue_items();
    assert_eq!(overdue.len(), 1);
    assert_eq!(overdue[0].id(), late);
}
