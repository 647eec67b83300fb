//! Ordered, directory-backed script fragments that form a text
//! transformation pipeline: marker-delimited extraction, the edit/save
//! codec around a fragment body, fragment file names, the planning of the
//! registry's renames, and the staging and judging of a pipeline run.

pub mod extract;
pub mod names;
pub mod pipeline;
pub mod python;
pub mod registry;

pub use extract::{get_content, ExtractionError};
pub use names::{fragment_file_name, parse_fragment_name};
pub use pipeline::{compose_code, OperationData, OperationOutput, RunError, RunRequest};
pub use python::{
    create_operation_runner_python, get_operation_python, get_operation_temple_python,
    OperationTemplate, INIT_COLLECTED_DATA_END, INIT_COLLECTED_DATA_START, OPERATION_TEMPLATE_END,
    OPERATION_TEMPLATE_START, RUNNER_PY, WRITE_CODE_BELOW,
};
pub use registry::{fragment_ids, FileAction, Operation, OperationManager};
