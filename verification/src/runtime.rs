//! The decisions behind the Java runtime that the server plugin manages: its
//! directory layout and command line, how its output is read until it says it
//! is ready, and how it is stopped. The plugin performs the process work and
//! hands each outcome back to these functions.

use vstd::prelude::*;

use crate::text::{texts, chars_equal_str, chars_of, push_chars, push_str, string_of};

verus! {

// ---------------------------------------------------------------------------
// Paths
// ---------------------------------------------------------------------------

/// `base` joined with `component` as a Unix `Path::join` does: an absolute
/// component replaces the base; otherwise a `/` separates them unless the
/// base is empty or already ends with one.
pub open spec fn join_path(base: Seq<char>, component: Seq<char>) -> Seq<char> {
    if component.len() > 0 && component[0] == '/' {
        component
    } else if base.len() > 0 && base.last() != '/' {
        base + seq!['/'] + component
    } else {
        base + component
    }
}

/// Joins two paths the way a Unix `Path::join` does.
pub fn join(base: &str, component: &str) -> (r: String)
    ensures
        r@ == join_path(base@, component@),
{
    let b = chars_of(base);
    let c = chars_of(component);
    let mut out: Vec<char> = Vec::new();
    if c.len() > 0 && c[0] == '/' {
        push_chars(&mut out, c.as_slice());
    } else {
        push_chars(&mut out, b.as_slice());
        if b.len() > 0 && b[b.len() - 1] != '/' {
            out.push('/');
        }
        push_chars(&mut out, c.as_slice());
    }
    assert(out@ =~= join_path(base@, component@));
    string_of(out.as_slice())
}

/// Where the runtime keeps its files below the server root.
pub struct RuntimeLayout {
    /// `<root>/patchquilt`, the game directory handed to the runtime.
    pub base: String,
    /// `<base>/mods`, where mod jars go.
    pub mods: String,
    /// `<base>/runtime`, the installed runtime.
    pub runtime: String,
    /// `<runtime>/lib`, its libraries.
    pub lib: String,
}

/// The layout below `root`.
pub open spec fn layout_of(root: Seq<char>) -> (Seq<char>, Seq<char>, Seq<char>, Seq<char>) {
    let base = join_path(root, "patchquilt"@);
    let runtime = join_path(base, "runtime"@);
    (base, join_path(base, "mods"@), runtime, join_path(runtime, "lib"@))
}

/// The directories the runtime uses below the server root.
pub fn runtime_layout(server_root: &str) -> (r: RuntimeLayout)
    ensures
        (r.base@, r.mods@, r.runtime@, r.lib@) == layout_of(server_root@),
{
    let base = join(server_root, "patchquilt");
    let mods = join(base.as_str(), "mods");
    let runtime = join(base.as_str(), "runtime");
    let lib = join(runtime.as_str(), "lib");
    RuntimeLayout { base, mods, runtime, lib }
}

/// The class path of the runtime: every jar of its `lib` directory.
pub open spec fn classpath_of(runtime: Seq<char>) -> Seq<char> {
    join_path(join_path(runtime, "lib"@), "*"@)
}

/// The class path of the runtime installed at `runtime`.
pub fn classpath(runtime: &str) -> (r: String)
    ensures
        r@ == classpath_of(runtime@),
{
    let lib = join(runtime, "lib");
    join(lib.as_str(), "*")
}

/// The arguments the Java executable is started with.
pub open spec fn launcher_arguments_of(base: Seq<char>, runtime: Seq<char>) -> Seq<Seq<char>> {
    seq![
        "-cp"@,
        classpath_of(runtime),
        "org.patchquilt.host.PatchQuiltLauncher"@,
        "--gameDir"@,
        base,
    ]
}

fn copy_str(s: &str) -> (r: String)
    ensures
        r@ == s@,
{
    string_of(chars_of(s).as_slice())
}

/// The arguments that start the runtime's launcher with `base` as its game
/// directory.
pub fn launcher_arguments(base: &str, runtime: &str) -> (r: Vec<String>)
    ensures
        texts(r@) == launcher_arguments_of(base@, runtime@),
{
    let mut r: Vec<String> = Vec::new();
    r.push(copy_str("-cp"));
    r.push(classpath(runtime));
    r.push(copy_str("org.patchquilt.host.PatchQuiltLauncher"));
    r.push(copy_str("--gameDir"));
    r.push(copy_str(base));
    assert(texts(r@) =~= launcher_arguments_of(base@, runtime@));
    r
}

// ---------------------------------------------------------------------------
// Readiness
// ---------------------------------------------------------------------------

/// The line the runtime prints once it is ready.
pub open spec fn ready_line() -> Seq<char> {
    "PATCHQUILT_READY"@
}

/// What reading the runtime's standard output gave.
pub enum OutputEvent {
    /// A line, without its line break.
    Line(String),
    /// Reading failed (the error's text).
    ReadFailed(String),
    /// The output ended.
    Closed,
}

pub enum OutputEventModel {
    Line(Seq<char>),
    ReadFailed(Seq<char>),
    Closed,
}

impl View for OutputEvent {
    type V = OutputEventModel;

    open spec fn view(&self) -> OutputEventModel {
        match self {
            OutputEvent::Line(l) => OutputEventModel::Line(l@),
            OutputEvent::ReadFailed(e) => OutputEventModel::ReadFailed(e@),
            OutputEvent::Closed => OutputEventModel::Closed,
        }
    }
}

/// What to do about one output event.
pub struct OutputStep {
    /// Whether readiness is still awaited afterwards.
    pub waiting: bool,
    /// The readiness outcome to report now, if any.
    pub report: Option<Result<(), String>>,
    /// A line to pass on to the log.
    pub log: Option<String>,
    /// Whether reading stops.
    pub stop: bool,
}

pub struct OutputStepModel {
    pub waiting: bool,
    pub report: Option<Result<(), Seq<char>>>,
    pub log: Option<Seq<char>>,
    pub stop: bool,
}

impl View for OutputStep {
    type V = OutputStepModel;

    open spec fn view(&self) -> OutputStepModel {
        OutputStepModel {
            waiting: self.waiting,
            report: match self.report {
                Some(Ok(())) => Some(Ok(())),
                Some(Err(e)) => Some(Err(e@)),
                None => None,
            },
            log: match self.log {
                Some(l) => Some(l@),
                None => None,
            },
            stop: self.stop,
        }
    }
}

/// The report made when readiness is awaited, nothing otherwise.
pub open spec fn report_if(waiting: bool, r: Result<(), Seq<char>>) -> Option<Result<(), Seq<char>>> {
    if waiting {
        Some(r)
    } else {
        None
    }
}

/// The decision for one output event, readiness being awaited or not: the
/// ready line is reported once and never logged, other lines are logged, and
/// a read error or the end of the output stops reading, reporting why the
/// runtime never became ready if it had not.
pub open spec fn output_step(waiting: bool, event: OutputEventModel) -> OutputStepModel {
    match event {
        OutputEventModel::Line(l) => if l == ready_line() {
            OutputStepModel {
                waiting: false,
                report: report_if(waiting, Ok(())),
                log: None,
                stop: false,
            }
        } else {
            OutputStepModel { waiting, report: None, log: Some(l), stop: false }
        },
        OutputEventModel::ReadFailed(e) => OutputStepModel {
            waiting: false,
            report: report_if(waiting, Err("failed to read PatchQuilt output: "@ + e)),
            log: None,
            stop: true,
        },
        OutputEventModel::Closed => OutputStepModel {
            waiting: false,
            report: report_if(waiting, Err("PatchQuilt Java runtime exited before becoming ready"@)),
            log: None,
            stop: true,
        },
    }
}

/// Decides what to do about one event of the runtime's standard output.
pub fn on_output(waiting: bool, event: OutputEvent) -> (r: OutputStep)
    ensures
        r@ == output_step(waiting, event@),
{
    match event {
        OutputEvent::Line(l) => {
            let cs = chars_of(l.as_str());
            if chars_equal_str(cs.as_slice(), "PATCHQUILT_READY") {
                OutputStep {
                    waiting: false,
                    report: if waiting {
                        Some(Ok(()))
                    } else {
                        None
                    },
                    log: None,
                    stop: false,
                }
            } else {
                OutputStep { waiting, report: None, log: Some(l), stop: false }
            }
        },
        OutputEvent::ReadFailed(e) => {
            let mut out: Vec<char> = Vec::new();
            push_str(&mut out, "failed to read PatchQuilt output: ");
            push_str(&mut out, e.as_str());
            OutputStep {
                waiting: false,
                report: if waiting {
                    Some(Err(string_of(out.as_slice())))
                } else {
                    None
                },
                log: None,
                stop: true,
            }
        },
        OutputEvent::Closed => OutputStep {
            waiting: false,
            report: if waiting {
                Some(Err(copy_str("PatchQuilt Java runtime exited before becoming ready")))
            } else {
                None
            },
            log: None,
            stop: true,
        },
    }
}

/// How long the runtime has to become ready, in seconds.
pub const READY_TIMEOUT_SECS: u64 = 60;

/// The outcome of waiting for readiness: what the output reader reported, or
/// `None` when nothing came in time.
pub fn readiness(reported: Option<Result<(), String>>) -> (r: Result<(), String>)
    ensures
        match reported {
            Some(Ok(())) => r is Ok,
            Some(Err(e)) => r matches Err(m) && m@ == e@,
            None => r matches Err(m) && m@ == "PatchQuilt Java runtime did not become ready within 60 seconds"@,
        },
{
    match reported {
        Some(r) => r,
        None => Err(copy_str("PatchQuilt Java runtime did not become ready within 60 seconds")),
    }
}

// ---------------------------------------------------------------------------
// Shutdown
// ---------------------------------------------------------------------------

/// The command that asks the runtime to stop.
pub fn stop_command() -> (r: Vec<u8>)
    ensures
        r@ == seq![83u8, 84u8, 79u8, 80u8, 10u8],
{
    vec![83u8, 84u8, 79u8, 80u8, 10u8]
}

/// How many times the runtime is polled for its exit before it is killed.
pub const STOP_POLLS: u32 = 100;

/// How long to sleep between polls, in milliseconds.
pub const POLL_INTERVAL_MILLIS: u64 = 100;

/// What to do after a poll for the runtime's exit.
#[derive(Clone, Copy, Debug, PartialEq, Eq, Structural)]
pub enum ShutdownStep {
    /// It has exited; stopping is done.
    Exited,
    /// Sleep, then poll again.
    PollAgain,
    /// Sleep, then kill it and reap it.
    Kill,
}

/// The decision after `polls_made` polls, the last of which saw the runtime
/// exited or not: it is given [`STOP_POLLS`] polls, each followed by a sleep.
pub fn shutdown_step(polls_made: u32, exited: bool) -> (r: ShutdownStep)
    ensures
        exited ==> r == ShutdownStep::Exited,
        !exited && polls_made < STOP_POLLS ==> r == ShutdownStep::PollAgain,
        !exited && polls_made >= STOP_POLLS ==> r == ShutdownStep::Kill,
{
    if exited {
        ShutdownStep::Exited
    } else if polls_made < STOP_POLLS {
        ShutdownStep::PollAgain
    } else {
        ShutdownStep::Kill
    }
}

} // verus!
