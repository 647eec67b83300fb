use std::collections::HashMap;
use update_file::{
    compose_code, OperationManager, OperationOutput, OperationTemplate, RunError,
};

fn manager_with(ids: &[usize]) -> OperationManager {
    let mut manager = OperationManager::new("opts");
    let names: Vec<String> = ids
        .iter()
        .map(|id| update_file::fragment_file_name(*id))
        .collect();
    manager.load_ids(&names);
    manager
}

fn output(index: usize, error: &str) -> OperationOutput {
    let mut data_map = HashMap::new();
    data_map.insert("end".to_string(), "World!".to_string());
    OperationOutput {
        data_map,
        content_index: index,
        new_content: "hello!\n".to_string(),
        error_message: error.to_string(),
    }
}

#[test]
fn compose_code_joins_bodies_with_line_breaks() {
    let code = compose_code(
        &vec![1, 2],
        &vec![Some("a = 1".to_string()), Some("b = 2\n".to_string())],
    );
    assert_eq!(code, Ok("a = 1\nb = 2\n\n".to_string()));
    assert_eq!(compose_code(&vec![], &vec![]), Ok(String::new()));
}

#[test]
fn compose_code_names_first_missing_fragment() {
    let code = compose_code(
        &vec![4, 5, 6],
        &vec![Some("a".to_string()), None, None],
    );
    assert_eq!(code, Err(RunError::NotFound(5)));
}

#[test]
fn run_operations_stages_script_and_request() {
    let template = OperationTemplate::bundled().unwrap();
    let manager = manager_with(&[1, 2, 3]);
    assert_eq!(manager.selected_ids(2), vec![1, 2]);
    assert_eq!(manager.selected_ids(10), vec![1, 2, 3]);
    let bodies = vec![Some("x = 1".to_string()), Some("y = 2".to_string())];
    let request = manager
        .run_operations(2, &template, "Hello, World!", &bodies)
        .unwrap();
    assert_eq!(
        request.script,
        format!("{}\nx = 1\ny = 2\n\n{}", template.head, template.tail)
    );
    assert_eq!(request.data.full_content, "Hello, World!");
    assert_eq!(request.data.content_index, 0);
    assert!(request.data.data_map.is_empty());
}

#[test]
fn run_operations_fails_on_missing_body() {
    let template = OperationTemplate::bundled().unwrap();
    let manager = manager_with(&[1, 2, 3]);
    let bodies = vec![Some("x = 1".to_string()), None, Some("z".to_string())];
    let result = manager.run_operations(3, &template, "text", &bodies);
    assert_eq!(result, Err(RunError::NotFound(2)));
}

#[test]
fn run_all_accepts_complete_consumption() {
    let mut manager = manager_with(&[1]);
    let full_content = "Hello!\nWorld!";
    let result = manager.run_all_operations(full_content, Ok(output(full_content.len(), "")));
    assert_eq!(result, Ok(output(13, "")));
    assert_eq!(manager.data_map_clone().get("end").map(|s| s.as_str()), Some("World!"));
}

#[test]
fn run_all_rejects_incomplete_consumption() {
    let mut manager = manager_with(&[1]);
    let full_content = "Hello!\nWorld!";
    let result = manager.run_all_operations(full_content, Ok(output(12, "")));
    assert_eq!(result, Err(RunError::IncompleteConsumption(12)));
    assert_eq!(manager.data_map_clone().len(), 1);
}

#[test]
fn run_all_reports_fragment_failure() {
    let mut manager = manager_with(&[1]);
    let result = manager.run_all_operations(
        "abc",
        Ok(output(0, "Operation check starting condition failed")),
    );
    assert_eq!(
        result,
        Err(RunError::ReportedFailure(
            "Operation check starting condition failed".to_string()
        ))
    );
}

#[test]
fn run_all_passes_execution_errors_through() {
    let mut manager = manager_with(&[1]);
    let failure = RunError::NonZeroExit("boom".to_string());
    let result = manager.run_all_operations("abc", Err(failure.clone()));
    assert_eq!(result, Err(failure));
    assert!(manager.data_map_clone().is_empty());
    for e in [
        RunError::LaunchFailed("x".to_string()),
        RunError::OutputUnparseable("y".to_string()),
    ] {
        assert_eq!(manager.run_all_operations("abc", Err(e.clone())), Err(e));
    }
}

#[test]
fn finish_run_carries_data_map_forward() {
    let mut manager = manager_with(&[1]);
    let result = manager.finish_run(Ok(output(3, "")));
    assert_eq!(result, Ok(output(3, "")));
    let template = OperationTemplate::bundled().unwrap();
    let request = manager
        .run_operations(1, &template, "abc", &vec![Some("b".to_string())])
        .unwrap();
    assert_eq!(request.data.data_map.get("end").map(|s| s.as_str()), Some("World!"));
}
