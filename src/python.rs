//! The boilerplate around a fragment: the runner script that executes a
//! chain of fragments, the view a user edits, and the body saved from it.

use vstd::prelude::*;
use crate::extract::{
    chars_of, extracted, find, find_in, get_content, lemma_find_extend, locate, ExtractionError,
};

verus! {

/// The runner script. The fragments' code replaces its operation template
/// section; the section above it is what an edit view shows before the
/// marker line.
pub const RUNNER_PY: &'static str = r#"import json
import os
import sys


class Operation:
    """One step of the chain. `check` says whether the step may run on
    `data`; `run` consumes input and produces output through `data`."""

    def check(self, data):
        return True

    def run(self, data):
        pass


operations = []


def operation(cls):
    operations.append(cls())
    return cls


## Init collected data start
# Each step receives `data`, a dict with the keys:
#   data["data_map"]       dict of str to str, kept from one run to the next
#   data["full_content"]   the whole input text
#   data["content_index"]  how many bytes of the input have been consumed
#   data["new_content"]    the text produced so far
# Define a step as a subclass of Operation decorated with @operation.
## Init collected data end

## Operation template start
@operation
class Step(Operation):
    def check(self, data):
        return True

    def run(self, data):
        data["new_content"] += data["full_content"]
        data["content_index"] = len(data["full_content"].encode())
## Operation template end


def main():
    request = json.loads(sys.argv[-1])
    data = {
        "data_map": dict(request["data_map"]),
        "full_content": request["full_content"],
        "content_index": request["content_index"],
        "new_content": "",
    }
    error_message = ""
    for op in operations:
        if not op.check(data):
            error_message = "Operation check starting condition failed"
            break
        op.run(data)
    result = {
        "data_map": data["data_map"],
        "content_index": data["content_index"],
        "new_content": data["new_content"],
        "error_message": error_message,
    }
    with open(os.environ["OUTPUT_FILE"], "w") as out:
        json.dump(result, out)


if __name__ == "__main__":
    main()
"#;

/// The line that separates the shown boilerplate from the user's code.
pub const WRITE_CODE_BELOW: &'static str =
    "## Write your code below, modify the code above, and DO NOT remove this line";

/// The markers around the runner's section shown above the marker line.
pub const INIT_COLLECTED_DATA_START: &'static str = "## Init collected data start";

pub const INIT_COLLECTED_DATA_END: &'static str = "## Init collected data end";

/// The markers around the runner's default operation, which the fragments'
/// code replaces.
pub const OPERATION_TEMPLATE_START: &'static str = "## Operation template start";

pub const OPERATION_TEMPLATE_END: &'static str = "## Operation template end";

/// The marker line with its line break: the user's code follows it.
pub open spec fn marker_line() -> Seq<char> {
    WRITE_CODE_BELOW@.push('\n')
}

/// What an edit view shows above the user's code.
pub open spec fn preamble(init: Seq<char>) -> Seq<char> {
    init.push('\n') + marker_line()
}

/// The view that an edit starts from: the preamble, then the code.
pub open spec fn edit_view(init: Seq<char>, body: Seq<char>) -> Seq<char> {
    preamble(init) + body
}

/// The marker line first occurs in the preamble where the preamble puts it.
pub open spec fn preamble_ok(init: Seq<char>) -> bool {
    find(preamble(init), marker_line()) == Some(init.len() + 1int)
}

/// The runner split for fragment code: `init` is shown above the marker
/// line, `template` is the default operation, and `head`, `template`,
/// `tail` put together give the runner back.
pub struct OperationTemplate {
    pub init: String,
    pub template: String,
    pub head: String,
    pub tail: String,
}

/// Both sections of `runner` can be extracted and the init section keeps
/// the marker line out of the preamble.
pub open spec fn runner_ok(runner: Seq<char>) -> bool {
    &&& extracted(runner, INIT_COLLECTED_DATA_START@, Some(INIT_COLLECTED_DATA_END@)) is Ok
    &&& extracted(runner, OPERATION_TEMPLATE_START@, Some(OPERATION_TEMPLATE_END@)) is Ok
    &&& preamble_ok(
        extracted(runner, INIT_COLLECTED_DATA_START@, Some(INIT_COLLECTED_DATA_END@))->Ok_0,
    )
}

impl OperationTemplate {
    /// An edit view of this template can be saved back: the marker line
    /// stays where the preamble puts it, and the default code is not empty.
    pub open spec fn wf(&self) -> bool {
        preamble_ok(self.init@) && self.template@.len() > 0
    }

    /// `self` is `runner` split at its sections.
    pub open spec fn built_from(&self, runner: Seq<char>) -> bool {
        &&& extracted(runner, INIT_COLLECTED_DATA_START@, Some(INIT_COLLECTED_DATA_END@)) == Ok::<
            Seq<char>,
            ExtractionError,
        >(self.init@)
        &&& extracted(runner, OPERATION_TEMPLATE_START@, Some(OPERATION_TEMPLATE_END@)) == Ok::<
            Seq<char>,
            ExtractionError,
        >(self.template@)
        &&& self.head@ + self.template@ + self.tail@ == runner
        &&& self.head@.len() == find(runner, OPERATION_TEMPLATE_START@)->Some_0
            + OPERATION_TEMPLATE_START@.len()
    }

    /// Splits `runner` at its init and operation template sections.
    pub fn from_runner(runner: &str) -> (r: Option<OperationTemplate>)
        ensures
            r is Some <==> runner_ok(runner@),
            r matches Some(t) ==> t.built_from(runner@) && t.wf(),
    {
        let init = match get_content(runner, INIT_COLLECTED_DATA_START, Some(INIT_COLLECTED_DATA_END)) {
            Ok(s) => s,
            Err(_) => return None,
        };
        let text = chars_of(runner);
        let start = chars_of(OPERATION_TEMPLATE_START);
        let (a, b) = match locate(&text, &start, Some(OPERATION_TEMPLATE_END)) {
            Ok(p) => p,
            Err(_) => return None,
        };
        let mut view = init.to_owned();
        view.append("\n");
        view.append(WRITE_CODE_BELOW);
        view.append("\n");
        let mut line = WRITE_CODE_BELOW.to_owned();
        line.append("\n");
        proof {
            reveal_strlit("\n");
        }
        let view_chars = chars_of(view.as_str());
        let line_chars = chars_of(line.as_str());
        assert(view_chars@ =~= preamble(init@));
        assert(line_chars@ =~= marker_line());
        match find_in(&view_chars, &line_chars, 0) {
            Some(k) => {
                if k == 0 || k - 1 != init.unicode_len() {
                    return None;
                }
            },
            None => return None,
        }
        let head = runner.substring_char(0, a);
        let template = runner.substring_char(a, b);
        let tail = runner.substring_char(b, text.len());
        assert(head@ + template@ + tail@ =~= runner@);
        Some(
            OperationTemplate {
                init: init.to_owned(),
                template: template.to_owned(),
                head: head.to_owned(),
                tail: tail.to_owned(),
            },
        )
    }

    /// The template that the bundled runner script gives.
    pub fn bundled() -> (r: Option<OperationTemplate>)
        ensures
            r is Some <==> runner_ok(RUNNER_PY@),
            r matches Some(t) ==> t.built_from(RUNNER_PY@) && t.wf(),
    {
        OperationTemplate::from_runner(RUNNER_PY)
    }
}

/// The view that an edit of a fragment starts from: the init section, the
/// marker line, then the fragment's code, or the default operation when
/// the fragment has none yet.
pub fn get_operation_temple_python(template: &OperationTemplate, user_opt_content: Option<&str>) -> (r:
    String)
    ensures
        r@ == edit_view(
            template.init@,
            match user_opt_content {
                Some(c) => c@,
                None => template.template@,
            },
        ),
{
    let mut r = template.init.clone();
    r.append("\n");
    r.append(WRITE_CODE_BELOW);
    r.append("\n");
    match user_opt_content {
        Some(c) => r.append(c),
        None => r.append(template.template.as_str()),
    }
    proof {
        reveal_strlit("\n");
    }
    r
}

/// The code to save from an edited view: everything after the marker line.
pub fn get_operation_python<'a>(content: &'a str) -> (r: Result<&'a str, ExtractionError>)
    ensures
        match (r, extracted(content@, marker_line(), None)) {
            (Ok(s), Ok(t)) => s@ == t,
            (Err(e), Err(f)) => e == f,
            _ => false,
        },
{
    let mut line = WRITE_CODE_BELOW.to_owned();
    line.append("\n");
    proof {
        reveal_strlit("\n");
    }
    assert(line@ =~= marker_line());
    get_content(content, line.as_str(), None)
}

/// The runner script with `opt_content`, on lines of its own, in place of
/// the default operation.
pub fn create_operation_runner_python(template: &OperationTemplate, opt_content: &str) -> (r:
    String)
    ensures
        r@ == template.head@ + seq!['\n'] + opt_content@ + seq!['\n'] + template.tail@,
{
    let mut r = template.head.clone();
    r.append("\n");
    r.append(opt_content);
    r.append("\n");
    r.append(template.tail.as_str());
    proof {
        reveal_strlit("\n");
    }
    assert(r@ =~= template.head@ + seq!['\n'] + opt_content@ + seq!['\n'] + template.tail@);
    r
}

/// Saving the view that an edit of a non-empty body starts from gives that
/// body back.
pub proof fn lemma_edit_save_round_trip(template: OperationTemplate, body: Seq<char>)
    requires
        template.wf(),
        body.len() > 0,
    ensures
        extracted(edit_view(template.init@, body), marker_line(), None) == Ok::<
            Seq<char>,
            ExtractionError,
        >(body),
{
    let init = template.init@;
    lemma_find_extend(preamble(init), body, marker_line());
    let view = edit_view(init, body);
    let a: int = (init.len() + 1 + marker_line().len()) as int;
    assert(view.subrange(a, view.len() as int) =~= body);
}

} // verus!
