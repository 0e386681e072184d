use todo::{Timestamp, TodoError, TodoList};

/// A fixed creation time for todos added in tests.
fn at() -> Timestamp {
    Timestamp { secs: 1_700_000_000, nanos: 0 }
}

fn create_todo_list_with_items() -> TodoList {
    let mut todo_list = TodoList::default();
    todo_list.add(vec!["First task".to_string()], at());
    todo_list.add(vec!["Second task".to_string()], at());
    todo_list
}

fn ids_of(list: &TodoList) -> Vec<usize> {
    list.todos().iter().map(|t| t.id).collect()
}

#[test]
fn test_add_todos_generates_unique_ids() {
    let mut todo_list = TodoList::default();
    todo_list.add(vec!["First task".to_string()], at());
    todo_list.add(vec!["Second task".to_string()], at());
    todo_list.add(vec!["Third task".to_string()], at());

    assert_eq!(todo_list.todos().len(), 3);
    let ids: std::collections::BTreeSet<_> = todo_list.todos().iter().map(|todo| todo.id).collect();
    assert_eq!(ids.len(), 3);
}

#[test]
fn test_todo_list_reset() {
    let mut todo_list = create_todo_list_with_items();
    assert_eq!(todo_list.todos().len(), 2);

    let res = todo_list.reset(Ok(()));
    assert!(res.is_ok());
    assert_eq!(todo_list.todos().len(), 0);
    assert_eq!(todo_list.available_ids().len(), 0);
}

#[test]
fn test_mark_todos_as_done() {
    let mut todo_list = create_todo_list_with_items();
    let ids: Vec<usize> = todo_list.todos().iter().map(|todo| todo.id).collect();

    todo_list.done(ids.clone()).expect("Failed to mark todos as done");

    for todo in todo_list.todos() {
        assert!(todo.is_complete, "Todo item with ID {} was not marked as done", todo.id);
    }
}

#[test]
fn test_mark_todos_as_star() {
    let mut todo_list = create_todo_list_with_items();
    let ids: Vec<usize> = todo_list.todos().iter().map(|todo| todo.id).collect();

    todo_list.star(ids.clone()).expect("Failed to mark todos as star");

    for todo in todo_list.todos() {
        assert!(todo.is_starred, "Todo item with ID {} was not marked as star", todo.id);
    }
}

#[test]
fn test_remove_todo() {
    let mut todo_list = create_todo_list_with_items();
    let id_to_remove = todo_list.todos()[0].id;

    todo_list.rm(vec![id_to_remove]).expect("Failed to remove todo");

    assert!(
        todo_list.todos().iter().all(|todo| todo.id != id_to_remove),
        "Todo with ID {} was not removed",
        id_to_remove
    );
}

#[test]
fn test_edit_todo() {
    let mut todo_list = create_todo_list_with_items();
    let id_to_edit = todo_list.todos()[0].id;
    let new_desc = vec!["Updated task description".to_string()];

    todo_list.edit(id_to_edit, new_desc.clone()).expect("Failed to edit todo");

    assert_eq!(todo_list.todos()[0].desc, new_desc.join(" "));
}

#[test]
fn test_remove_nonexistent_todo() {
    let mut todo_list = create_todo_list_with_items();
    let non_existent_id = 999;

    let result = todo_list.rm(vec![non_existent_id]);
    assert!(result.is_err(), "Removing non-existent todo should fail");
}

#[test]
fn test_edit_nonexistent_todo() {
    let mut todo_list = create_todo_list_with_items();
    let non_existent_id = 999;
    let new_desc = vec!["Non-existent task".to_string()];

    let result = todo_list.edit(non_existent_id, new_desc);
    assert!(result.is_err(), "Editing non-existent todo should fail");
}

#[test]
fn test_save_and_load_todo_list() {
    let todo_list = create_todo_list_with_items();
    let len = todo_list.todos().len();
    let config = todo_list.config();

    let (todos, available) = todo_list.into_parts();
    let loaded_todo_list =
        TodoList::from_parts(todos, available, config).expect("Failed to load todo list");

    assert_eq!(loaded_todo_list.todos().len(), len);
}

#[test]
fn test_todo_id_regeneration_after_removal() {
    let mut todo_list = TodoList::default();

    todo_list.add(vec!["First task".to_string()], at());
    todo_list.add(vec!["Second task".to_string()], at());

    let id_to_remove = todo_list.todos()[0].id;
    todo_list.rm(vec![id_to_remove]).expect("Failed to remove todo");

    todo_list.add(vec!["Third task".to_string()], at());

    assert_eq!(todo_list.todos().len(), 2);
    assert!(todo_list.todos().iter().any(|todo| todo.id == id_to_remove), "ID was not reused");
}

#[test]
fn add_splits_trims_and_drops_empty_pieces() {
    let mut list = TodoList::default();
    let ts = Timestamp { secs: 100, nanos: 5 };
    list.add(vec!["  Buy".to_string(), "milk ::".to_string(), ":: Walk dog\t::".to_string()], ts);
    let descs: Vec<&str> = list.todos().iter().map(|t| t.desc.as_str()).collect();
    assert_eq!(descs, vec!["Buy milk", "Walk dog"]);
    assert_eq!(ids_of(&list), vec![1, 2]);
    assert!(list.todos().iter().all(|t| t.timestamp == ts && !t.is_complete && !t.is_starred));
}

#[test]
fn add_of_only_separators_adds_nothing() {
    let mut list = TodoList::default();
    list.add(vec![" :: ".to_string(), "::".to_string()], at());
    assert_eq!(list.todos().len(), 0);
}

#[test]
fn scenario_add_remove_reuse_done_sort() {
    let mut list = TodoList::default();
    list.add(vec!["Buy milk::Walk dog".to_string()], at());
    assert_eq!(ids_of(&list), vec![1, 2]);
    list.rm(vec![1]).unwrap();
    assert_eq!(ids_of(&list), vec![2]);
    assert!(list.available_ids().contains(&1));
    list.add(vec!["Read book".to_string()], at());
    assert_eq!(ids_of(&list), vec![2, 1]);
    assert_eq!(list.todos()[1].desc, "Read book");
    list.done(vec![1]).unwrap();
    assert!(list.todos()[1].is_complete);
    list.sort(Some(todo::SortBy::Done));
    assert_eq!(ids_of(&list), vec![2, 1]);
    list.sort(Some(todo::SortBy::Id));
    assert_eq!(ids_of(&list), vec![1, 2]);
    list.sort(None);
    assert_eq!(ids_of(&list), vec![2, 1]);
}

#[test]
fn reuse_takes_the_least_freed_identifier_first() {
    let mut list = TodoList::default();
    list.add(vec!["a::b::c::d::e".to_string()], at());
    list.rm(vec![4, 2]).unwrap();
    list.add(vec!["f".to_string()], at());
    assert_eq!(list.todos().last().unwrap().id, 2);
    list.add(vec!["g".to_string()], at());
    assert_eq!(list.todos().last().unwrap().id, 4);
    list.add(vec!["h".to_string()], at());
    assert_eq!(list.todos().last().unwrap().id, 6);
    let mut ids = ids_of(&list);
    ids.sort();
    ids.dedup();
    assert_eq!(ids.len(), list.todos().len());
}

#[test]
fn changes_stop_at_the_first_unknown_identifier_and_keep_earlier_ones() {
    let mut list = TodoList::default();
    list.add(vec!["a::b::c".to_string()], at());
    assert_eq!(list.done(vec![1, 7, 2]), Err(TodoError::IdNotFound(7)));
    assert!(list.todos()[0].is_complete);
    assert!(!list.todos()[1].is_complete);
    assert_eq!(list.rm(vec![3, 9, 1]), Err(TodoError::IdNotFound(9)));
    assert_eq!(ids_of(&list), vec![1, 2]);
    assert!(list.available_ids().contains(&3));
    assert_eq!(list.star(vec![2, 2]), Ok(()));
    assert!(!list.todos()[1].is_starred);
    assert_eq!(list.undone(vec![1]), Ok(()));
    assert!(!list.todos()[0].is_complete);
}

#[test]
fn edit_joins_words_with_spaces() {
    let mut list = TodoList::default();
    list.add(vec!["old".to_string()], at());
    assert_eq!(list.edit(1, vec!["new".to_string(), "text".to_string()]), Ok(()));
    assert_eq!(list.todos()[0].desc, "new text");
    assert_eq!(list.edit(5, vec!["x".to_string()]), Err(TodoError::IdNotFound(5)));
}

#[test]
fn filter_is_case_insensitive_substring_or() {
    let mut list = TodoList::default();
    list.add(vec!["Buy Milk::Walk dog::Read BOOK".to_string()], at());
    assert_eq!(list.filter(&vec!["MILK".to_string()]), vec![1]);
    assert_eq!(list.filter(&vec!["milk".to_string()]), vec![1]);
    assert_eq!(list.filter(&vec!["book::  DOG ".to_string()]), vec![2, 3]);
    assert_eq!(list.filter(&vec!["walk".to_string(), "dog".to_string()]), vec![2]);
    assert_eq!(list.filter(&vec!["cat".to_string()]), Vec::<usize>::new());
}

#[test]
fn empty_filter_matches_every_item() {
    let mut list = TodoList::default();
    list.add(vec!["one::two::three".to_string()], at());
    assert_eq!(list.filter(&vec![]), vec![1, 2, 3]);
    assert_eq!(list.filter(&vec!["".to_string()]), vec![1, 2, 3]);
}

#[test]
fn sort_by_completion_is_stable() {
    let mut list = TodoList::default();
    list.add(vec!["a::b::c::d::e".to_string()], at());
    list.done(vec![1, 4]).unwrap();
    list.sort(Some(todo::SortBy::Done));
    assert_eq!(ids_of(&list), vec![2, 3, 5, 1, 4]);
}

#[test]
fn sort_by_date_is_stable_and_by_id_orders_identifiers() {
    let mut list = TodoList::default();
    list.add(vec!["a".to_string()], Timestamp { secs: 30, nanos: 0 });
    list.add(vec!["b".to_string()], Timestamp { secs: 10, nanos: 7 });
    list.add(vec!["c".to_string()], Timestamp { secs: 10, nanos: 7 });
    list.add(vec!["d".to_string()], Timestamp { secs: 10, nanos: 2 });
    list.sort(Some(todo::SortBy::Date));
    assert_eq!(ids_of(&list), vec![4, 2, 3, 1]);
    list.sort(Some(todo::SortBy::Id));
    assert_eq!(ids_of(&list), vec![1, 2, 3, 4]);
}

#[test]
fn reset_keeps_everything_when_the_snapshot_failed() {
    let mut list = create_todo_list_with_items();
    assert_eq!(list.reset(Err(TodoError::SourceMissing)), Err(TodoError::SourceMissing));
    assert_eq!(list.todos().len(), 2);
    list.rm(vec![1]).unwrap();
    assert_eq!(list.reset(Ok(())), Ok(()));
    assert_eq!(list.todos().len(), 0);
    assert_eq!(list.available_ids().len(), 0);
}

#[test]
fn save_and_load_round_trip_keeps_todos_and_free_identifiers() {
    let mut list = TodoList::default();
    list.add(vec!["x::y::z".to_string()], Timestamp { secs: 5, nanos: 6 });
    list.rm(vec![2]).unwrap();
    list.done(vec![3]).unwrap();
    let config = list.config();
    let (todos, available) = list.into_parts();
    assert_eq!(available, vec![2]);
    let back = TodoList::from_parts(todos, available, config).unwrap();
    assert_eq!(ids_of(&back), vec![1, 3]);
    assert_eq!(back.todos()[1].desc, "z");
    assert!(back.todos()[1].is_complete);
    assert_eq!(back.todos()[0].timestamp, Timestamp { secs: 5, nanos: 6 });
    assert_eq!(back.available_ids().iter().copied().collect::<Vec<_>>(), vec![2]);
}

#[test]
fn loading_rejects_broken_contents() {
    let mut list = TodoList::default();
    list.add(vec!["a::b".to_string()], at());
    let config = list.config();
    let (todos, _) = list.into_parts();
    // identifier 1 is both in use and free
    assert!(matches!(
        TodoList::from_parts(todos, vec![1], config),
        Err(TodoError::InvalidStore)
    ));
    let mut list = TodoList::default();
    list.add(vec!["a::b".to_string()], at());
    let (todos, _) = list.into_parts();
    // identifier 9 lies past the two todos and one free identifier
    assert!(matches!(
        TodoList::from_parts(todos, vec![9], config),
        Err(TodoError::InvalidStore)
    ));
}

#[test]
fn free_identifiers_are_handed_out_in_increasing_order() {
    let mut list = TodoList::default();
    list.add(vec!["a::b::c::d::e".to_string()], at());
    list.rm(vec![5, 2, 4]).unwrap();
    let (todos, available) = list.into_parts();
    assert_eq!(available, vec![2, 4, 5]);
    assert_eq!(todos.iter().map(|t| t.id).collect::<Vec<_>>(), vec![1, 3]);
}
