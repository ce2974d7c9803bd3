//! The decisions of the process supervisor, which runs one child under
//! `ptrace` and relays its exit status: what a wait status means, when the
//! traced child is resumed, and the exit code the supervisor ends with. The
//! supervisor makes the system calls and hands each wait status over.

use vstd::prelude::*;

verus! {

/// `libc::WIFEXITED`: the low seven bits of the status are zero.
#[verifier::external_body]
fn wifexited(status: i32) -> (r: bool)
    ensures
        r == (status & 0x7f == 0),
{
    libc::WIFEXITED(status)
}

/// `libc::WEXITSTATUS`: bits 8 to 15 of the status.
#[verifier::external_body]
fn wexitstatus(status: i32) -> (r: i32)
    ensures
        r == (status >> 8) & 0xff,
{
    libc::WEXITSTATUS(status)
}

/// `libc::WIFSIGNALED`: the low seven bits, plus one and taken as an `i8`,
/// are at least two, that is, they hold a value from 1 to 126.
#[verifier::external_body]
fn wifsignaled(status: i32) -> (r: bool)
    ensures
        r == (1 <= status & 0x7f && status & 0x7f <= 126),
{
    libc::WIFSIGNALED(status)
}

/// `libc::WIFSTOPPED`: the low byte of the status is `0x7f`.
#[verifier::external_body]
fn wifstopped(status: i32) -> (r: bool)
    ensures
        r == (status & 0xff == 0x7f),
{
    libc::WIFSTOPPED(status)
}

/// Whether a wait status says the child exited normally.
pub open spec fn exited(status: i32) -> bool {
    status & 0x7f == 0
}

/// Whether a wait status says a signal ended the child.
pub open spec fn signaled(status: i32) -> bool {
    1 <= status & 0x7f && status & 0x7f <= 126
}

/// Whether a wait status says the child is stopped.
pub open spec fn stopped(status: i32) -> bool {
    status & 0xff == 0x7f
}

/// The exit status a normally exited child reported.
pub open spec fn exit_status(status: i32) -> int {
    ((status >> 8) & 0xff) as int
}

/// The code the supervisor exits with for the child's final wait status:
/// the child's own exit status when it exited normally, else 1.
pub open spec fn exit_code_of(status: i32) -> u8 {
    if exited(status) {
        exit_status(status) as u8
    } else {
        1
    }
}

/// The code the supervisor exits with for the child's final wait status.
pub fn exit_code(status: i32) -> (r: u8)
    ensures
        r == exit_code_of(status),
        exited(status) ==> r as int == exit_status(status),
{
    if wifexited(status) {
        let code = wexitstatus(status);
        assert(0 <= (status >> 8) & 0xff <= 0xff) by (bit_vector);
        if 0 <= code && code <= 255 {
            code as u8
        } else {
            1
        }
    } else {
        1
    }
}

/// What a wait status during tracing calls for.
#[derive(Clone, Copy, Debug, PartialEq, Eq, Structural)]
pub enum TraceStep {
    /// The child is gone; this status is the final one.
    Finished,
    /// The child is in a ptrace stop; resume it with `PTRACE_CONT`.
    Resume,
    /// Nothing to do; wait again.
    WaitAgain,
}

/// The decision for a wait status while tracing.
pub open spec fn trace_step_of(status: i32) -> TraceStep {
    if exited(status) || signaled(status) {
        TraceStep::Finished
    } else if stopped(status) {
        TraceStep::Resume
    } else {
        TraceStep::WaitAgain
    }
}

/// Decides what a wait status during tracing calls for: an exited or
/// signalled child is finished, a stopped one is resumed.
pub fn trace_step(status: i32) -> (r: TraceStep)
    ensures
        r == trace_step_of(status),
{
    if wifexited(status) || wifsignaled(status) {
        TraceStep::Finished
    } else if wifstopped(status) {
        TraceStep::Resume
    } else {
        TraceStep::WaitAgain
    }
}

/// Checks the wait status of the first stop after the child was seized and
/// interrupted: it must be a stop, not the child's end.
pub fn first_stop(status: i32) -> (r: Result<(), String>)
    ensures
        (exited(status) || signaled(status)) ==> (r matches Err(m) && m@
            == "child exited before ptrace could be resumed"@),
        !(exited(status) || signaled(status)) && !stopped(status) ==> (r matches Err(m) && m@
            == "child did not enter a ptrace stop"@),
        !(exited(status) || signaled(status)) && stopped(status) ==> r is Ok,
{
    if wifexited(status) || wifsignaled(status) {
        return Err(crate::text::string_of(
            crate::text::chars_of("child exited before ptrace could be resumed").as_slice(),
        ));
    }
    if !wifstopped(status) {
        return Err(crate::text::string_of(
            crate::text::chars_of("child did not enter a ptrace stop").as_slice(),
        ));
    }
    Ok(())
}

/// A traced child is only ever in one of these states: a status is never
/// both finished and stopped.
pub proof fn lemma_wait_status_kinds_exclusive(status: i32)
    ensures
        !((exited(status) || signaled(status)) && stopped(status)),
{
    assert(status & 0xff == 0x7f ==> status & 0x7f == 0x7f) by (bit_vector);
}

} // verus!
