use update_file::{
    create_operation_runner_python, get_operation_python, get_operation_temple_python,
    ExtractionError, OperationTemplate, RUNNER_PY, WRITE_CODE_BELOW,
};

#[test]
fn test_get_operation_python() {
    let template = OperationTemplate::bundled().unwrap();
    let init_collected_data = template.init.as_str();
    let operation_template = template.template.as_str();
    let user_content = "print('Hello')";
    let content = format!(
        "{}\n{}\n{}\n{}",
        init_collected_data, user_content, WRITE_CODE_BELOW, operation_template
    );
    let operation = get_operation_python(&content);
    assert_eq!(operation.unwrap(), operation_template);
    let content = format!(
        "{}\n{}\n{}",
        init_collected_data, WRITE_CODE_BELOW, user_content
    );
    let operation = get_operation_python(&content);
    assert_eq!(operation.unwrap(), user_content);
}

#[test]
fn test_create_operation_runner_python() {
    let template = OperationTemplate::bundled().unwrap();
    let class_content = template.template.clone() + "\nprint('Hello!')";
    let content = create_operation_runner_python(&template, &class_content);
    assert_eq!(content.contains("print('Hello!')"), true);
}

#[test]
fn bundled_template_sections() {
    let template = OperationTemplate::bundled().unwrap();
    assert!(template.init.contains("data[\"data_map\"]"));
    assert!(template.template.contains("@operation"));
    assert_eq!(
        format!("{}{}{}", template.head, template.template, template.tail),
        RUNNER_PY
    );
    assert!(template.head.ends_with("## Operation template start"));
    assert!(template.tail.starts_with("## Operation template end"));
}

#[test]
fn runner_splices_code_in_place_of_the_template() {
    let template = OperationTemplate::bundled().unwrap();
    let runner = create_operation_runner_python(&template, "CODE");
    let expected = format!("{}\nCODE\n{}", template.head, template.tail);
    assert_eq!(runner, expected);
    assert!(!runner.contains(template.template.as_str()));
}

#[test]
fn edit_view_of_new_and_existing_fragments() {
    let template = OperationTemplate::bundled().unwrap();
    let fresh = get_operation_temple_python(&template, None);
    assert_eq!(
        fresh,
        format!("{}\n{}\n{}", template.init, WRITE_CODE_BELOW, template.template)
    );
    let existing = get_operation_temple_python(&template, Some("x = 1\n"));
    assert_eq!(
        existing,
        format!("{}\n{}\nx = 1\n", template.init, WRITE_CODE_BELOW)
    );
}

#[test]
fn edit_then_save_round_trip() {
    let template = OperationTemplate::bundled().unwrap();
    for body in ["x = 1\n", "print('hi')", "a\n\nb\n"] {
        let view = get_operation_temple_python(&template, Some(body));
        assert_eq!(get_operation_python(&view).unwrap(), body);
    }
    let view = get_operation_temple_python(&template, None);
    assert_eq!(get_operation_python(&view).unwrap(), template.template);
}

#[test]
fn save_rejects_missing_marker_or_empty_body() {
    assert_eq!(
        get_operation_python("print('no marker')"),
        Err(ExtractionError::StartNotFound)
    );
    let view = format!("init\n{}\n", WRITE_CODE_BELOW);
    assert_eq!(get_operation_python(&view), Err(ExtractionError::EmptyResult));
}

#[test]
fn template_from_runner_needs_both_sections() {
    assert!(OperationTemplate::from_runner("no sections here").is_none());
    let only_init = "## Init collected data start\ninit\n## Init collected data end\n";
    assert!(OperationTemplate::from_runner(only_init).is_none());
    let runner = "head\n## Init collected data start\ninit\n## Init collected data end\n\
                  ## Operation template start\nbody\n## Operation template end\ntail\n";
    let template = OperationTemplate::from_runner(runner).unwrap();
    assert_eq!(template.init, "\ninit\n");
    assert_eq!(template.template, "\nbody\n");
    assert_eq!(template.tail, "## Operation template end\ntail\n");
}

#[test]
fn template_from_runner_rejects_marker_in_init() {
    let runner = format!(
        "## Init collected data start\n{}\n## Init collected data end\n\
         ## Operation template start\nbody\n## Operation template end\n",
        WRITE_CODE_BELOW
    );
    assert!(OperationTemplate::from_runner(&runner).is_none());
}
