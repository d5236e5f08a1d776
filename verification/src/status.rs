//! Lifecycle states and the mapping from the backend's status strings.

use vstd::prelude::*;

verus! {

/// The lifecycle state of a pipeline or a job.
#[derive(Clone, Copy, Debug, PartialEq, Eq, Structural)]
pub enum Status {
    CREATED,
    PENDING,
    RUNNING,
    SUCCESS,
    FAILED,
    SKIPPED,
    CANCELED,
    MANUAL,
}

/// The state that a backend status string stands for. Every string other than
/// the eight known ones, the empty string included, stands for `FAILED`.
pub open spec fn status_of(text: Seq<char>) -> Status {
    if text == "created"@ {
        Status::CREATED
    } else if text == "pending"@ {
        Status::PENDING
    } else if text == "running"@ {
        Status::RUNNING
    } else if text == "failed"@ {
        Status::FAILED
    } else if text == "success"@ {
        Status::SUCCESS
    } else if text == "canceled"@ {
        Status::CANCELED
    } else if text == "skipped"@ {
        Status::SKIPPED
    } else if text == "manual"@ {
        Status::MANUAL
    } else {
        Status::FAILED
    }
}

/// Each of the eight known status strings stands for the state of its name.
pub proof fn lemma_known_statuses()
    ensures
        status_of("created"@) == Status::CREATED,
        status_of("pending"@) == Status::PENDING,
        status_of("running"@) == Status::RUNNING,
        status_of("failed"@) == Status::FAILED,
        status_of("success"@) == Status::SUCCESS,
        status_of("canceled"@) == Status::CANCELED,
        status_of("skipped"@) == Status::SKIPPED,
        status_of("manual"@) == Status::MANUAL,
{
    reveal_strlit("created");
    reveal_strlit("pending");
    reveal_strlit("running");
    reveal_strlit("failed");
    reveal_strlit("success");
    reveal_strlit("canceled");
    reveal_strlit("skipped");
    reveal_strlit("manual");
    assert("created"@[0] == 'c' && "created"@[1] == 'r');
    assert("pending"@[0] == 'p');
    assert("running"@[0] == 'r');
    assert("failed"@[0] == 'f');
    assert("success"@[0] == 's' && "success"@[1] == 'u');
    assert("canceled"@[0] == 'c' && "canceled"@[1] == 'a');
    assert("skipped"@[0] == 's' && "skipped"@[1] == 'k');
    assert("manual"@[0] == 'm');
}

/// Every string that is none of the eight known ones stands for `FAILED`.
pub proof fn lemma_unknown_status(text: Seq<char>)
    requires
        text != "created"@,
        text != "pending"@,
        text != "running"@,
        text != "failed"@,
        text != "success"@,
        text != "canceled"@,
        text != "skipped"@,
        text != "manual"@,
    ensures
        status_of(text) == Status::FAILED,
{
}

/// Maps a backend status string to its lifecycle state.
pub fn map_status(status: &str) -> (state: Status)
    ensures
        state == status_of(status@),
{
    let text = status.to_owned();
    if text == "created".to_owned() {
        Status::CREATED
    } else if text == "pending".to_owned() {
        Status::PENDING
    } else if text == "running".to_owned() {
        Status::RUNNING
    } else if text == "failed".to_owned() {
        Status::FAILED
    } else if text == "success".to_owned() {
        Status::SUCCESS
    } else if text == "canceled".to_owned() {
        Status::CANCELED
    } else if text == "skipped".to_owned() {
        Status::SKIPPED
    } else if text == "manual".to_owned() {
        Status::MANUAL
    } else {
        Status::FAILED
    }
}

} // verus!
