use todo::{
    backup_file_name, backup_files_to_delete, get_backup_file_path, get_config_file_path,
    get_todo_file_path, list_backup_timestamps, new_backup_file_path, trim_backup_file_name,
    BackupAction, Config, Outcome, Pattern, SortBy, Timestamp, TodoError, TodoList,
};

/// A fixed creation time for todos added in tests.
fn at() -> Timestamp {
    Timestamp { secs: 1_700_000_000, nanos: 0 }
}

fn names(v: &[&str]) -> Vec<String> {
    v.iter().map(|s| s.to_string()).collect()
}

#[test]
fn snapshot_file_names_carry_the_timestamp() {
    assert_eq!(backup_file_name("1700000000"), "todos_backup_1700000000.json");
    assert_eq!(trim_backup_file_name("todos_backup_1700000000.json"), Some("1700000000".to_string()));
    assert_eq!(trim_backup_file_name("todos_backup_.json"), Some(String::new()));
    assert_eq!(trim_backup_file_name("todos_backup_17.txt"), None);
    assert_eq!(trim_backup_file_name("backup_17.json"), None);
    assert_eq!(trim_backup_file_name("todos_backup.json"), None);
}

#[test]
fn new_snapshot_needs_a_todo_file() {
    assert_eq!(new_backup_file_path("/b", false, 42), Err(TodoError::SourceMissing));
    assert_eq!(new_backup_file_path("/b", true, 1700000000), Ok("/b/todos_backup_1700000000.json".to_string()));
    assert_eq!(new_backup_file_path("/b", true, 0), Ok("/b/todos_backup_0.json".to_string()));
}

#[test]
fn paths_join_directory_and_file_name() {
    assert_eq!(get_todo_file_path("/data/todo_app"), "/data/todo_app/todos.json");
    assert_eq!(get_config_file_path("/cfg/todo_app"), "/cfg/todo_app/config.lua");
}

#[test]
fn scenario_backup_create_list_delete_open() {
    let mut dir = names(&["notes.txt"]);
    let path = new_backup_file_path("/b", true, 1700000123).unwrap();
    let file = path.rsplit('/').next().unwrap().to_string();
    dir.push(file);
    assert_eq!(list_backup_timestamps(&dir), vec!["1700000123".to_string()]);
    assert_eq!(get_backup_file_path("/b", "1700000123", &dir), Ok(path.clone()));
    let doomed = backup_files_to_delete(&dir);
    assert_eq!(doomed, vec!["todos_backup_1700000123.json".to_string()]);
    dir.retain(|n| !doomed.contains(n));
    assert_eq!(get_backup_file_path("/b", "1700000123", &dir), Err(TodoError::BackupNotFound));
    assert!(list_backup_timestamps(&dir).is_empty());
}

#[test]
fn listing_skips_files_that_are_not_snapshots() {
    let dir = names(&["todos_backup_1.json", "todos_backup_2.bak", "other.json", "todos_backup_3.json"]);
    assert_eq!(list_backup_timestamps(&dir), vec!["1".to_string(), "3".to_string()]);
    assert_eq!(
        backup_files_to_delete(&dir),
        names(&["todos_backup_1.json", "todos_backup_2.bak", "todos_backup_3.json"])
    );
}

#[test]
fn scenario_restore_takes_a_fresh_identifier() {
    let mut snap = TodoList::default();
    snap.add(vec!["a::b::Old task".to_string()], Timestamp { secs: 9, nanos: 1 });
    snap.done(vec![3]).unwrap();
    snap.star(vec![3]).unwrap();
    let mut live = TodoList::default();
    let missing = live.restore_backup(&snap, &vec![3]);
    assert!(missing.is_empty());
    assert_eq!(live.todos().len(), 1);
    let t = &live.todos()[0];
    assert_eq!(t.id, 1);
    assert_eq!(t.desc, "Old task");
    assert!(t.is_complete && t.is_starred);
    assert_eq!(t.timestamp, Timestamp { secs: 9, nanos: 1 });
}

#[test]
fn restore_reports_identifiers_the_snapshot_lacks() {
    let mut snap = TodoList::default();
    snap.add(vec!["a::b".to_string()], at());
    let mut live = TodoList::default();
    live.add(vec!["x::y".to_string()], at());
    live.rm(vec![1]).unwrap();
    let missing = live.restore_backup(&snap, &vec![7, 2, 8, 1]);
    assert_eq!(missing, vec![7, 8]);
    let ids: Vec<usize> = live.todos().iter().map(|t| t.id).collect();
    assert_eq!(ids, vec![2, 1, 3]);
    assert_eq!(live.todos()[1].desc, "b");
    assert_eq!(live.todos()[2].desc, "a");
}

#[test]
fn config_defaults_to_backup_on_reset() {
    assert!(Config::default().backup_on_reset);
    assert!(Config::from_value(None).backup_on_reset);
    assert!(!Config::from_value(Some(false)).backup_on_reset);
    assert!(TodoList::default().config().backup_on_reset);
}

#[test]
fn default_config_file_text() {
    assert_eq!(
        Config::default().to_lua(),
        "config = {\n    backup_on_reset = true,\n}\n"
    );
    assert_eq!(
        Config::from_value(Some(false)).to_lua(),
        "config = {\n    backup_on_reset = false,\n}\n"
    );
}

#[test]
fn commands_are_applied_and_say_what_to_show() {
    let mut list = TodoList::default();
    let add = Pattern::Add { args: vec!["Buy milk::Walk dog".to_string()] };
    assert!(list.has_room_for(&vec!["Buy milk::Walk dog".to_string()]));
    assert!(matches!(list.handle_cli(add, at()), Ok(Outcome::ShowList)));
    assert_eq!(list.todos().len(), 2);
    assert!(matches!(list.handle_cli(Pattern::Done { args: vec![1] }, at()), Ok(Outcome::ShowList)));
    assert!(matches!(
        list.handle_cli(Pattern::Star { args: vec![5] }, at()),
        Err(TodoError::IdNotFound(5))
    ));
    match list.handle_cli(Pattern::Filter { query: vec!["DOG".to_string()] }, at()) {
        Ok(Outcome::ShowMatches(ids)) => assert_eq!(ids, vec![2]),
        _ => panic!("filter should list its matches"),
    }
    assert!(matches!(
        list.handle_cli(Pattern::Sort { sort_by: Some(SortBy::Done) }, at()),
        Ok(Outcome::ShowList)
    ));
    assert_eq!(list.todos()[0].id, 2);
    assert!(matches!(list.handle_cli(Pattern::Reset, at()), Ok(Outcome::ResetRequested)));
    assert_eq!(list.todos().len(), 2);
    assert!(matches!(
        list.handle_cli(Pattern::Backup { name: Some(BackupAction::Create) }, at()),
        Ok(Outcome::Backup(Some(BackupAction::Create)))
    ));
    assert!(matches!(
        list.handle_cli(Pattern::Edit { id: 9, description: vec![] }, at()),
        Err(TodoError::IdNotFound(9))
    ));
}

#[test]
fn restore_from_a_snapshot_holding_only_the_requested_todo() {
    let mut snap = TodoList::default();
    snap.add(vec!["a::b::Old task".to_string()], at());
    snap.rm(vec![1, 2]).unwrap();
    assert_eq!(snap.todos().len(), 1);
    let mut live = TodoList::default();
    assert!(live.restore_backup(&snap, &vec![3]).is_empty());
    assert_eq!(live.todos()[0].id, 1);
    assert_eq!(live.todos()[0].desc, "Old task");
    assert_eq!(snap.todos()[0].id, 3);
}
