//! A pipeline run: the script and request that run a prefix of the
//! registry's fragments, and what a finished run's result means.

use vstd::prelude::*;
use std::collections::HashMap;
use crate::python::{create_operation_runner_python, OperationTemplate};
use crate::registry::OperationManager;

verus! {

/// What a run hands to the runner script.
#[derive(Debug, Clone, PartialEq, Eq)]
pub struct OperationData {
    pub data_map: HashMap<String, String>,
    pub full_content: String,
    pub content_index: usize,
}

/// What the runner script hands back.
#[derive(Debug, Clone, PartialEq, Eq)]
pub struct OperationOutput {
    pub data_map: HashMap<String, String>,
    pub content_index: usize,
    pub new_content: String,
    pub error_message: String,
}

/// Why a run failed.
#[derive(Debug, Clone, PartialEq, Eq)]
pub enum RunError {
    /// A selected fragment has no file.
    NotFound(usize),
    /// The interpreter could not be started.
    LaunchFailed(String),
    /// The interpreter exited with a failure; the script and its error
    /// stream are in the message.
    NonZeroExit(String),
    /// The runner's result could not be read.
    OutputUnparseable(String),
    /// The fragments reported a failure of their own.
    ReportedFailure(String),
    /// The fragments stopped before the end of the input, at this index.
    IncompleteConsumption(usize),
}

/// A staged run: the script to execute and the request to pass it.
#[derive(Debug, Clone, PartialEq, Eq)]
pub struct RunRequest {
    pub script: String,
    pub data: OperationData,
}

/// The fragments' code put together: each body followed by a line break.
pub open spec fn joined_code(bodies: Seq<Seq<char>>) -> Seq<char>
    decreases bodies.len(),
{
    if bodies.len() == 0 {
        Seq::empty()
    } else {
        joined_code(bodies.drop_last()) + bodies.last() + seq!['\n']
    }
}

/// The stored bodies, an empty one where a fragment has none.
pub open spec fn body_views(bodies: Seq<Option<String>>) -> Seq<Seq<char>> {
    Seq::new(
        bodies.len(),
        |i: int|
            match bodies[i] {
                Some(b) => b@,
                None => Seq::empty(),
            },
    )
}

/// Every selected fragment has a body.
pub open spec fn all_present(bodies: Seq<Option<String>>) -> bool {
    forall|i: int| 0 <= i < bodies.len() ==> bodies[i] is Some
}

/// `i` is the first selected fragment without a body.
pub open spec fn first_missing(bodies: Seq<Option<String>>, i: int) -> bool {
    0 <= i < bodies.len() && bodies[i] is None && forall|j: int| 0 <= j < i ==> bodies[j] is Some
}

/// Puts the bodies of the fragments `ids` together, each followed by a line
/// break. Fails on the first fragment without a body.
pub fn compose_code(ids: &Vec<usize>, bodies: &Vec<Option<String>>) -> (r: Result<String, RunError>)
    requires
        ids@.len() == bodies@.len(),
    ensures
        r is Ok <==> all_present(bodies@),
        r matches Ok(code) ==> code@ == joined_code(body_views(bodies@)),
        r matches Err(e) ==> exists|i: int|
            first_missing(bodies@, i) && e == RunError::NotFound(ids@[i]),
{
    let mut code = String::new();
    let mut i: usize = 0;
    while i < bodies.len()
        invariant
            ids@.len() == bodies@.len(),
            i <= bodies@.len(),
            forall|j: int| 0 <= j < i ==> bodies@[j] is Some,
            code@ == joined_code(body_views(bodies@).take(i as int)),
        decreases bodies@.len() - i,
    {
        match &bodies[i] {
            None => {
                assert(first_missing(bodies@, i as int));
                return Err(RunError::NotFound(ids[i]));
            },
            Some(b) => {
                let ghost before = code@;
                code.append(b.as_str());
                code.append("\n");
                proof {
                    reveal_strlit("\n");
                    let t = body_views(bodies@).take(i + 1);
                    assert(t.drop_last() =~= body_views(bodies@).take(i as int));
                    assert(code@ =~= joined_code(t));
                }
            },
        }
        i = i + 1;
    }
    assert(body_views(bodies@).take(bodies@.len() as int) =~= body_views(bodies@));
    Ok(code)
}

impl OperationManager {
    /// The fragments a run of the first `stop_id` ones takes.
    pub open spec fn selection(&self, stop_id: usize) -> Seq<usize> {
        if stop_id < self.ids_view().len() {
            self.ids_view().take(stop_id as int)
        } else {
            self.ids_view()
        }
    }

    /// The ids of the first `stop_id` fragments, ascending.
    pub fn selected_ids(&self, stop_id: usize) -> (r: Vec<usize>)
        ensures
            r@ == self.selection(stop_id),
    {
        let ids = self.get_ids();
        let n = if stop_id < ids.len() {
            stop_id
        } else {
            ids.len()
        };
        let mut r: Vec<usize> = Vec::new();
        let mut i: usize = 0;
        while i < n
            invariant
                ids@ == self.ids_view(),
                n <= ids@.len(),
                i <= n,
                r@ =~= ids@.take(i as int),
            decreases n - i,
        {
            r.push(ids[i]);
            i = i + 1;
        }
        assert(r@ =~= self.selection(stop_id));
        r
    }

    /// Stages a run of the first `stop_id` fragments, given the stored
    /// bodies of `selected_ids(stop_id)` in that order: the runner script
    /// with their code in place of the default operation, and the request
    /// with the carried data map, `full_content` and index zero.
    pub fn run_operations(
        &self,
        stop_id: usize,
        template: &OperationTemplate,
        full_content: &str,
        bodies: &Vec<Option<String>>,
    ) -> (r: Result<RunRequest, RunError>)
        requires
            bodies@.len() == self.selection(stop_id).len(),
        ensures
            r is Ok <==> all_present(bodies@),
            r matches Ok(req) ==> req.script@ == template.head@ + seq!['\n'] + joined_code(
                body_views(bodies@),
            ) + seq!['\n'] + template.tail@ && req.data.data_map@ == self.data_map_view()
                && req.data.full_content@ == full_content@ && req.data.content_index == 0,
            r matches Err(e) ==> exists|i: int|
                first_missing(bodies@, i) && e == RunError::NotFound(self.selection(stop_id)[i]),
    {
        let ids = self.selected_ids(stop_id);
        let code = match compose_code(&ids, bodies) {
            Ok(c) => c,
            Err(e) => return Err(e),
        };
        let script = create_operation_runner_python(template, code.as_str());
        let data = OperationData {
            data_map: self.data_map_clone(),
            full_content: full_content.to_owned(),
            content_index: 0,
        };
        Ok(RunRequest { script, data })
    }

    /// Records a finished run: a result's data map becomes the one carried
    /// to the next run. Returns `outcome` as it is.
    pub fn finish_run(&mut self, outcome: Result<OperationOutput, RunError>) -> (r: Result<
        OperationOutput,
        RunError,
    >)
        ensures
            r == outcome,
            outcome matches Ok(o) ==> final(self).data_map_view() == o.data_map@,
            outcome is Err ==> final(self).data_map_view() == old(self).data_map_view(),
            final(self).ids_view() == old(self).ids_view(),
            final(self).dir_view() == old(self).dir_view(),
    {
        if let Ok(o) = &outcome {
            self.set_data_map(o.data_map.clone());
        }
        outcome
    }

    /// Records the finished run of all fragments and judges it: the
    /// fragments must report no failure and consume all of `full_content`.
    pub fn run_all_operations(
        &mut self,
        full_content: &str,
        outcome: Result<OperationOutput, RunError>,
    ) -> (r: Result<OperationOutput, RunError>)
        ensures
            outcome is Err ==> r == outcome && final(self).data_map_view() == old(
                self,
            ).data_map_view(),
            outcome matches Ok(o) ==> final(self).data_map_view() == o.data_map@,
            outcome matches Ok(o) ==> (if o.error_message@.len() > 0 {
                r matches Err(RunError::ReportedFailure(m)) && m@ == o.error_message@
            } else if o.content_index != full_content.len() {
                r == Err::<OperationOutput, RunError>(
                    RunError::IncompleteConsumption(o.content_index),
                )
            } else {
                r == outcome
            }),
            final(self).ids_view() == old(self).ids_view(),
            final(self).dir_view() == old(self).dir_view(),
    {
        match self.finish_run(outcome) {
            Err(e) => Err(e),
            Ok(o) => {
                if !o.error_message.as_str().is_empty() {
                    Err(RunError::ReportedFailure(o.error_message.clone()))
                } else if o.content_index != full_content.len() {
                    Err(RunError::IncompleteConsumption(o.content_index))
                } else {
                    Ok(o)
                }
            },
        }
    }
}

} // verus!
