use std::collections::BTreeMap;
use update_file::{
    fragment_file_name, fragment_ids, get_operation_python, get_operation_temple_python,
    parse_fragment_name, FileAction, OperationManager, OperationTemplate,
};

/// A directory of fragments held in memory: id to stored body.
type Dir = BTreeMap<usize, String>;

fn apply(dir: &mut Dir, actions: &[FileAction]) {
    for action in actions {
        match *action {
            FileAction::Rename { from, to } => {
                if let Some(body) = dir.remove(&from) {
                    dir.insert(to, body);
                }
            }
            FileAction::Delete { id } => {
                dir.remove(&id);
            }
        }
    }
}

fn listing(dir: &Dir) -> Vec<String> {
    let mut names: Vec<String> = dir.keys().map(|id| fragment_file_name(*id)).collect();
    names.push("README.md".to_string());
    names.push("opt-x.py".to_string());
    names
}

fn dir_of(entries: &[(usize, &str)]) -> Dir {
    entries.iter().map(|(id, b)| (*id, b.to_string())).collect()
}

#[test]
fn test_write_read_opt_content() {
    let template = OperationTemplate::bundled().unwrap();
    let manager = OperationManager::new("opts");
    let mut manager = manager;
    let (opt, actions) = manager.insert_operation(0);
    assert!(actions.is_empty());
    let user_content = get_operation_temple_python(&template, None) + "\nprint('Hello, World!')\n";
    let stored = opt.user_write_content(&user_content);
    assert!(stored.is_some());
    assert_eq!(stored.unwrap(), get_operation_python(&user_content).unwrap());
}

#[test]
fn test_manager_insert_operation() {
    let template = OperationTemplate::bundled().unwrap();
    let mut dir = Dir::new();
    let mut manager = OperationManager::new("opts");
    let user_content = &get_operation_temple_python(&template, None);
    for id in [1, 2, 3] {
        manager.load_ids(&listing(&dir));
        let (opt, actions) = manager.insert_operation(id);
        apply(&mut dir, &actions);
        let body = opt.user_write_content(user_content);
        assert!(body.is_some());
        dir.insert(opt.id, body.unwrap().to_string());
    }

    manager.load_ids(&listing(&dir));
    assert_eq!(manager.get_ids().len(), 3);
    let ids = manager.get_ids();
    assert_eq!(ids, vec![1, 2, 3]);

    let (opt4, actions) = manager.insert_operation(2);
    apply(&mut dir, &actions);
    assert_eq!(opt4.id, 2);

    let ids = manager.get_ids();
    assert_eq!(ids, vec![1, 3, 4]);
    manager.load_ids(&listing(&dir));
    assert_eq!(manager.get_ids(), vec![1, 3, 4]);
}

#[test]
fn test_manager_remove_operation() {
    let template = OperationTemplate::bundled().unwrap();
    let mut dir = Dir::new();
    let mut manager = OperationManager::new("opts");
    let user_content = &get_operation_temple_python(&template, None);
    for id in [1, 2, 3] {
        manager.load_ids(&listing(&dir));
        let (opt, actions) = manager.insert_operation(id);
        apply(&mut dir, &actions);
        dir.insert(opt.id, opt.user_write_content(user_content).unwrap().to_string());
    }

    manager.load_ids(&listing(&dir));
    assert_eq!(manager.get_ids(), vec![1, 2, 3]);

    let actions = manager.remove_operation(2);
    assert!(actions.is_some());
    apply(&mut dir, &actions.unwrap());

    assert_eq!(manager.get_ids(), vec![1, 2]);
    manager.load_ids(&listing(&dir));
    assert_eq!(manager.get_ids(), vec![1, 2]);
}

#[test]
fn remove_middle_of_three_keeps_last_body() {
    let mut dir = dir_of(&[(1, "one"), (2, "two"), (3, "three")]);
    let mut manager = OperationManager::new("opts");
    manager.load_ids(&listing(&dir));
    let actions = manager.remove_operation(2).unwrap();
    assert_eq!(
        actions,
        vec![
            FileAction::Delete { id: 2 },
            FileAction::Rename { from: 3, to: 2 },
            FileAction::Rename { from: 1, to: 1 },
        ]
    );
    apply(&mut dir, &actions);
    assert_eq!(manager.get_ids(), vec![1, 2]);
    assert_eq!(dir, dir_of(&[(1, "one"), (2, "three")]));
}

#[test]
fn remove_absent_id_changes_nothing() {
    let dir = dir_of(&[(0, "a"), (1, "b")]);
    let mut manager = OperationManager::new("opts");
    manager.load_ids(&listing(&dir));
    assert!(manager.remove_operation(5).is_none());
    assert_eq!(manager.get_ids(), vec![0, 1]);
}

#[test]
fn remove_end_needs_no_renames() {
    let mut dir = dir_of(&[(0, "a"), (1, "b"), (2, "c")]);
    let mut manager = OperationManager::new("opts");
    manager.load_ids(&listing(&dir));
    let actions = manager.remove_operation(2).unwrap();
    assert_eq!(actions, vec![FileAction::Delete { id: 2 }]);
    apply(&mut dir, &actions);
    assert_eq!(manager.get_ids(), vec![0, 1]);
    assert_eq!(dir, dir_of(&[(0, "a"), (1, "b")]));
}

#[test]
fn remove_then_resequence_from_zero() {
    let mut dir = dir_of(&[(0, "a"), (1, "b"), (2, "c"), (3, "d")]);
    let mut manager = OperationManager::new("opts");
    manager.load_ids(&listing(&dir));
    let actions = manager.remove_operation(1).unwrap();
    apply(&mut dir, &actions);
    assert_eq!(manager.get_ids(), vec![1, 2, 3]);
    assert_eq!(dir, dir_of(&[(1, "a"), (2, "c"), (3, "d")]));
}

#[test]
fn insert_at_occupied_id_shifts_up() {
    let mut dir = dir_of(&[(0, "a"), (1, "b"), (2, "c")]);
    let mut manager = OperationManager::new("opts");
    manager.load_ids(&listing(&dir));
    let (opt, actions) = manager.insert_operation(1);
    assert_eq!(opt.id, 1);
    assert_eq!(
        actions,
        vec![
            FileAction::Rename { from: 2, to: 3 },
            FileAction::Rename { from: 1, to: 2 },
        ]
    );
    apply(&mut dir, &actions);
    assert_eq!(manager.get_ids(), vec![0, 2, 3]);
    assert_eq!(dir, dir_of(&[(0, "a"), (2, "b"), (3, "c")]));
    dir.insert(1, "new".to_string());
    manager.load_ids(&listing(&dir));
    assert_eq!(manager.get_ids(), vec![0, 1, 2, 3]);
}

#[test]
fn insert_at_free_id_renames_nothing() {
    let dir = dir_of(&[(0, "a"), (1, "b")]);
    let mut manager = OperationManager::new("opts");
    manager.load_ids(&listing(&dir));
    let (opt, actions) = manager.insert_operation(7);
    assert_eq!(opt.id, 7);
    assert!(actions.is_empty());
    assert_eq!(manager.get_ids(), vec![0, 1]);
}

#[test]
fn add_operation_takes_the_count() {
    let dir = dir_of(&[(0, "a"), (1, "b")]);
    let mut manager = OperationManager::new("opts");
    manager.load_ids(&listing(&dir));
    let (opt, actions) = manager.add_operation();
    assert_eq!(opt.id, 2);
    assert!(actions.is_empty());

    let mut dir = dir_of(&[(1, "a"), (2, "b")]);
    manager.load_ids(&listing(&dir));
    let (opt, actions) = manager.add_operation();
    assert_eq!(opt.id, 2);
    apply(&mut dir, &actions);
    assert_eq!(dir, dir_of(&[(1, "a"), (3, "b")]));
}

#[test]
fn resequence_twice_is_a_no_op() {
    let mut dir = dir_of(&[(0, "a"), (5, "b"), (9, "c")]);
    let mut manager = OperationManager::new("opts");
    manager.load_ids(&listing(&dir));
    let first = manager.resort_operations();
    apply(&mut dir, &first);
    assert_eq!(manager.get_ids(), vec![1, 2, 3]);
    assert_eq!(dir, dir_of(&[(1, "a"), (2, "b"), (3, "c")]));
    let second = manager.resort_operations();
    assert!(second.is_empty());
    assert_eq!(manager.get_ids(), vec![1, 2, 3]);
}

#[test]
fn resequence_leaves_contiguous_ids() {
    let mut manager = OperationManager::new("opts");
    manager.load_ids(&listing(&dir_of(&[(4, "a"), (5, "b")])));
    assert!(manager.resort_operations().is_empty());
    assert_eq!(manager.get_ids(), vec![4, 5]);
}

#[test]
fn get_operation_only_for_indexed_ids() {
    let mut manager = OperationManager::new("opts");
    manager.load_ids(&listing(&dir_of(&[(1, "a")])));
    let opt = manager.get_operation(1).unwrap();
    assert_eq!(opt.id, 1);
    assert_eq!(opt.file_path(), "opts/opt-1.py");
    assert!(manager.get_operation(2).is_none());
}

#[test]
fn user_write_content_rejects_bad_views() {
    let template = OperationTemplate::bundled().unwrap();
    let manager = OperationManager::new("opts");
    let _ = manager;
    let opt = update_file::Operation::new(3, "opts");
    assert!(opt.user_write_content("no marker at all").is_none());
    let empty = get_operation_temple_python(&template, Some(""));
    assert!(opt.user_write_content(&empty).is_none());
    let view = opt.user_get_content(&template, Some("x = 2\n"));
    assert_eq!(opt.user_write_content(&view), Some("x = 2\n"));
}

#[test]
fn fragment_names_and_ids() {
    assert_eq!(fragment_file_name(0), "opt-0.py");
    assert_eq!(fragment_file_name(12), "opt-12.py");
    assert_eq!(parse_fragment_name("opt-7.py"), Some(7));
    assert_eq!(parse_fragment_name("opt-0.py"), Some(0));
    assert_eq!(parse_fragment_name("opt-120.py"), Some(120));
    assert_eq!(parse_fragment_name("opt-012.py"), None);
    assert_eq!(parse_fragment_name("opt-.py"), None);
    assert_eq!(parse_fragment_name("opt-1a.py"), None);
    assert_eq!(parse_fragment_name("opt-1.pyc"), None);
    assert_eq!(parse_fragment_name("Opt-1.py"), None);
    assert_eq!(
        parse_fragment_name("opt-18446744073709551615.py"),
        Some(usize::MAX)
    );
    assert_eq!(parse_fragment_name("opt-18446744073709551616.py"), None);
}

#[test]
fn fragment_ids_sorted_and_filtered() {
    let names: Vec<String> = ["opt-10.py", "notes.txt", "opt-2.py", "opt-02.py", "opt-3.py"]
        .iter()
        .map(|s| s.to_string())
        .collect();
    assert_eq!(fragment_ids(&names), vec![2, 3, 10]);
    assert_eq!(fragment_ids(&Vec::new()), Vec::<usize>::new());
}
