//! The decisions of a wrapped shell session: what to run, with which
//! arguments and window size, how its raw reads and writes go on, and which
//! exit code comes out at the end.
use vstd::prelude::*;

use crate::pipe::{EventView, PipeEvent};

verus! {

// ----- starting ----------------------------------------------------------

/// What the command line asks for.
#[derive(Debug)]
pub enum Launch {
    /// Print the usage text.
    Help,
    /// Run this shell with these arguments.
    Run { shell: String, args: Vec<String> },
}

/// A [`Launch`], as text.
pub enum LaunchPlan {
    Help,
    Run { shell: Seq<char>, args: Seq<Seq<char>> },
}

/// What a command line and the shell that the environment names come to.
pub open spec fn launch_plan(args: Seq<Seq<char>>, shell: Option<Seq<char>>) -> LaunchPlan {
    if args.len() > 0 && (args[0] == "--help"@ || args[0] == "-h"@) {
        LaunchPlan::Help
    } else {
        LaunchPlan::Run {
            shell: match shell {
                Some(named) => named,
                None => "bash"@,
            },
            args: if args.len() > 0 {
                args
            } else {
                seq!["-i"@]
            },
        }
    }
}

/// The texts of some strings.
pub open spec fn texts(strings: Seq<String>) -> Seq<Seq<char>> {
    strings.map_values(|s: String| s@)
}

/// The command line opens with a request for help.
pub open spec fn asks_for_help(args: Seq<String>) -> bool {
    args.len() > 0 && (args[0]@ == "--help"@ || args[0]@ == "-h"@)
}

/// Decides what to run. `args` are the arguments after the program's name, and
/// `shell` is the shell that the environment names, if it does. Without
/// arguments the shell is interactive; without a shell it is `bash`.
pub fn plan_launch(args: Vec<String>, shell: Option<String>) -> (launch: Launch)
    ensures
        asks_for_help(args@) <==> launch is Help,
        launch is Help <==> args@.len() > 0 && (args@[0]@ == "--help"@ || args@[0]@ == "-h"@),
        launch is Help <==> launch_plan(
            texts(args@),
            match shell {
                Some(named) => Some(named@),
                None => None,
            },
        ) is Help,
        launch matches Launch::Run { shell: sh, args: argv } ==> launch_plan(
            texts(args@),
            match shell {
                Some(named) => Some(named@),
                None => None,
            },
        ) == (LaunchPlan::Run { shell: sh@, args: texts(argv@) }),
        launch matches Launch::Run { shell: sh, args: argv } ==> {
            &&& match shell {
                Some(named) => sh@ == named@,
                None => sh@ == "bash"@,
            }
            &&& if args@.len() > 0 {
                argv@ == args@
            } else {
                argv@.len() == 1 && argv@[0]@ == "-i"@
            }
        },
{
    if args.len() > 0 && (args[0] == "--help".to_owned() || args[0] == "-h".to_owned()) {
        return Launch::Help;
    }
    let shell = match shell {
        Some(named) => named,
        None => "bash".to_owned(),
    };
    let ghost given = args@;
    let mut args = args;
    if args.len() == 0 {
        args.push("-i".to_owned());
        assert(texts(args@) =~= seq!["-i"@]);
    }
    assert(texts(given).len() == given.len());
    Launch::Run { shell, args }
}

/// Why a command line cannot be handed to `execvp`.
#[derive(Debug, Clone, Copy, PartialEq, Eq, Structural)]
pub enum ArgvError {
    /// The command holds a NUL byte.
    Command,
    /// An argument holds a NUL byte.
    Argument,
}

impl ArgvError {
    /// What to tell the user.
    pub fn reason(self) -> (r: &'static str)
        ensures
            r@ == match self {
                ArgvError::Command => "invalid command name"@,
                ArgvError::Argument => "invalid argument"@,
            },
    {
        match self {
            ArgvError::Command => "invalid command name",
            ArgvError::Argument => "invalid argument",
        }
    }
}

/// `s` holds a NUL byte.
pub open spec fn has_nul(s: Seq<u8>) -> bool {
    s.contains(0)
}

/// Some argument holds a NUL byte.
pub open spec fn any_has_nul(args: Seq<Vec<u8>>) -> bool {
    exists|i: int| 0 <= i < args.len() && has_nul(#[trigger] args[i]@)
}

/// The argument vector that a command and its arguments come to.
pub open spec fn argv_outcome(command: Seq<u8>, args: Seq<Seq<u8>>) -> Result<
    Seq<Seq<u8>>,
    ArgvError,
> {
    if has_nul(command) {
        Err(ArgvError::Command)
    } else if exists|i: int| 0 <= i < args.len() && has_nul(#[trigger] args[i]) {
        Err(ArgvError::Argument)
    } else {
        Ok(seq![command] + args)
    }
}

/// The bytes of some byte strings.
pub open spec fn contents(strings: Seq<Vec<u8>>) -> Seq<Seq<u8>> {
    strings.map_values(|s: Vec<u8>| s@)
}

fn contains_nul(s: &[u8]) -> (r: bool)
    ensures
        r == has_nul(s@),
{
    for i in 0..s.len()
        invariant
            forall|j: int| 0 <= j < i ==> s@[j] != 0,
    {
        if s[i] == 0 {
            assert(s@[i as int] == 0);
            return true;
        }
    }
    false
}

/// The argument vector of the child: the command itself, then its arguments.
/// A C string ends at its first NUL, so a command or an argument that holds
/// one is refused; the command is looked at first.
pub fn build_argv(command: Vec<u8>, args: Vec<Vec<u8>>) -> (r: Result<Vec<Vec<u8>>, ArgvError>)
    ensures
        r == Err::<Vec<Vec<u8>>, ArgvError>(ArgvError::Command) <==> has_nul(command@),
        r == Err::<Vec<Vec<u8>>, ArgvError>(ArgvError::Argument) <==> !has_nul(command@)
            && any_has_nul(args@),
        r matches Ok(argv) ==> argv@ == seq![command] + args@,
        r is Ok <==> {
            &&& forall|j: int| 0 <= j < command@.len() ==> command@[j] != 0
            &&& forall|i: int, j: int|
                0 <= i < args@.len() && 0 <= j < args@[i]@.len() ==> args@[i]@[j] != 0
        },
        (r is Err && r->Err_0 is Command) <==> exists|j: int|
            0 <= j < command@.len() && command@[j] == 0,
        r matches Ok(argv) ==> argv_outcome(command@, contents(args@)) == Ok::<
            Seq<Seq<u8>>,
            ArgvError,
        >(contents(argv@)),
        r matches Err(e) ==> argv_outcome(command@, contents(args@)) == Err::<
            Seq<Seq<u8>>,
            ArgvError,
        >(e),
{
    if contains_nul(command.as_slice()) {
        return Err(ArgvError::Command);
    }
    for i in 0..args.len()
        invariant
            forall|j: int| 0 <= j < i ==> !has_nul(#[trigger] args@[j]@),
            !has_nul(command@),
    {
        if contains_nul(args[i].as_slice()) {
            assert(has_nul(args@[i as int]@));
            assert(has_nul(contents(args@)[i as int]));
            return Err(ArgvError::Argument);
        }
    }
    let mut argv: Vec<Vec<u8>> = Vec::new();
    let mut rest = args;
    argv.push(command);
    argv.append(&mut rest);
    assert(argv@ =~= seq![command] + args@);
    proof {
        assert forall|i: int, j: int|
            0 <= i < args@.len() && 0 <= j < args@[i]@.len() implies args@[i]@[j] != 0 by {
            assert(!has_nul(args@[i]@));
        }
        assert forall|i: int| 0 <= i < contents(args@).len() implies !has_nul(
            #[trigger] contents(args@)[i],
        ) by {
            assert(!has_nul(args@[i]@));
        }
        assert(contents(argv@) =~= seq![command@] + contents(args@));
    }
    Ok(argv)
}

/// The size of a terminal window.
#[derive(Debug, Clone, Copy, PartialEq, Eq, Structural)]
pub struct WindowSize {
    pub rows: u16,
    pub cols: u16,
    pub xpixel: u16,
    pub ypixel: u16,
}

/// The size that the child's terminal starts with: that of the outer terminal
/// if there is one, else 24 rows of 80 columns.
pub fn initial_window_size(outer: Option<WindowSize>) -> (r: WindowSize)
    ensures
        r == match outer {
            Some(size) => size,
            None => (WindowSize { rows: 24, cols: 80, xpixel: 0, ypixel: 0 }),
        },
{
    match outer {
        Some(size) => size,
        None => WindowSize { rows: 24, cols: 80, xpixel: 0, ypixel: 0 },
    }
}

// ----- running -----------------------------------------------------------

/// What came of a read from the terminal of the child.
#[derive(Debug, Clone, Copy)]
pub enum MasterRead<'a> {
    /// These bytes were read; none at all is the end of the output.
    Bytes(&'a [u8]),
    /// The read was interrupted.
    Interrupted,
    /// The child has closed its side of the terminal.
    HungUp,
    /// The read failed otherwise.
    Failed,
}

/// What a read from the terminal of the child is to the pipe: a closed
/// terminal is the end of the output.
pub fn master_event<'a>(read: MasterRead<'a>) -> (event: PipeEvent<'a>)
    ensures
        event@ == match read {
            MasterRead::Bytes(bytes) => EventView::Read(bytes@),
            MasterRead::Interrupted => EventView::ReadInterrupted,
            MasterRead::HungUp => EventView::Read(Seq::empty()),
            MasterRead::Failed => EventView::ReadFailed,
        },
        read matches MasterRead::Bytes(bytes) ==> (event matches PipeEvent::Read(chunk) && chunk@
            == bytes@),
        read is Interrupted ==> event is ReadInterrupted,
        read is HungUp ==> (event matches PipeEvent::Read(chunk) && chunk@.len() == 0),
        read is Failed ==> event is ReadFailed,
{
    match read {
        MasterRead::Bytes(bytes) => PipeEvent::Read(bytes),
        MasterRead::Interrupted => PipeEvent::ReadInterrupted,
        MasterRead::HungUp => {
            let none: &'a [u8] = &[];
            assert(none@ =~= Seq::<u8>::empty());
            PipeEvent::Read(none)
        },
        MasterRead::Failed => PipeEvent::ReadFailed,
    }
}

/// What came of one write of the bytes that are left.
#[derive(Debug, Clone, Copy)]
pub enum WriteEvent {
    /// This many of them were written.
    Wrote(usize),
    /// The write was interrupted.
    Interrupted,
    /// The write failed.
    Failed,
}

/// How writing a whole buffer goes on.
#[derive(Debug, Clone, Copy, PartialEq, Eq, Structural)]
pub enum WriteAction {
    /// Write what is left from this offset on.
    WriteFrom(usize),
    /// All has been written.
    Done,
    /// Stop with the error that was just met.
    Fail,
}

/// How to write a buffer of `len` bytes of which `done` are written.
pub open spec fn write_rest(len: int, done: int) -> WriteAction {
    if done < len {
        WriteAction::WriteFrom(done as usize)
    } else {
        WriteAction::Done
    }
}

/// How writing goes on after an event, where `done` bytes were written before.
pub open spec fn write_after(len: int, done: int, event: WriteEvent) -> WriteAction {
    match event {
        WriteEvent::Wrote(n) => write_rest(len, done + n),
        WriteEvent::Interrupted => write_rest(len, done),
        WriteEvent::Failed => WriteAction::Fail,
    }
}

/// The first step of writing a buffer of `len` bytes.
pub fn write_start(len: usize) -> (action: WriteAction)
    ensures
        action == write_rest(len as int, 0),
        len > 0 ==> action == WriteAction::WriteFrom(0),
        len == 0 ==> action == WriteAction::Done,
{
    if 0 < len {
        WriteAction::WriteFrom(0)
    } else {
        WriteAction::Done
    }
}

/// The next step of writing a buffer of `len` bytes, after a write of what was
/// left from `done` on. An interrupted write is tried again.
pub fn write_next(len: usize, done: usize, event: WriteEvent) -> (action: WriteAction)
    requires
        done <= len,
        event matches WriteEvent::Wrote(n) ==> n <= len - done,
    ensures
        action == write_after(len as int, done as int, event),
        event matches WriteEvent::Wrote(n) ==> if done + n < len {
            action == WriteAction::WriteFrom((done + n) as usize)
        } else {
            action == WriteAction::Done
        },
        event is Interrupted ==> if done < len {
            action == WriteAction::WriteFrom(done)
        } else {
            action == WriteAction::Done
        },
        event is Failed ==> action == WriteAction::Fail,
{
    let done: usize = match event {
        WriteEvent::Wrote(n) => done + n,
        WriteEvent::Interrupted => done,
        WriteEvent::Failed => {
            return WriteAction::Fail;
        },
    };
    if done < len {
        WriteAction::WriteFrom(done)
    } else {
        WriteAction::Done
    }
}

/// What came of the last step of forwarding keystrokes.
#[derive(Debug, Clone, Copy)]
pub enum ForwardEvent {
    /// This many bytes were read; none at all is the end of the input.
    Read(usize),
    /// The read was interrupted.
    ReadInterrupted,
    /// The read failed.
    ReadFailed,
    /// The bytes were written.
    Written,
    /// The bytes could not be written.
    WriteFailed,
}

/// The next step of forwarding keystrokes.
#[derive(Debug, Clone, Copy, PartialEq, Eq, Structural)]
pub enum ForwardAction {
    /// Read from the outer terminal.
    Read,
    /// Write the first so many bytes read to the child, as they are.
    Write(usize),
    /// Forward nothing more.
    Stop,
}

/// Decides how forwarding keystrokes to the child goes on. It ends, without
/// an error, at the end of the input and at any failure.
pub fn forward_next(event: ForwardEvent) -> (action: ForwardAction)
    ensures
        action == match event {
            ForwardEvent::Read(n) => if n > 0 {
                ForwardAction::Write(n)
            } else {
                ForwardAction::Stop
            },
            ForwardEvent::ReadInterrupted => ForwardAction::Read,
            ForwardEvent::Written => ForwardAction::Read,
            ForwardEvent::ReadFailed => ForwardAction::Stop,
            ForwardEvent::WriteFailed => ForwardAction::Stop,
        },
{
    match event {
        ForwardEvent::Read(n) => if n > 0 {
            ForwardAction::Write(n)
        } else {
            ForwardAction::Stop
        },
        ForwardEvent::ReadInterrupted => ForwardAction::Read,
        ForwardEvent::Written => ForwardAction::Read,
        ForwardEvent::ReadFailed => ForwardAction::Stop,
        ForwardEvent::WriteFailed => ForwardAction::Stop,
    }
}

// ----- ending ------------------------------------------------------------

/// How the child ended.
#[derive(Debug, Clone, Copy)]
pub enum ChildStatus {
    /// It exited with this code.
    Exited(i32),
    /// This signal killed it.
    Signaled(i32),
    /// Anything else.
    Other,
}

/// The exit code of a session: the child's own, or 128 and the signal's
/// number, or 1.
pub open spec fn session_code(status: ChildStatus) -> int {
    match status {
        ChildStatus::Exited(code) => code as int,
        ChildStatus::Signaled(signal) => 128 + signal,
        ChildStatus::Other => 1,
    }
}

/// The code nearest to `code` that a process can exit with.
pub open spec fn nearest_exit_code(code: int) -> int {
    if code < 0 {
        0
    } else if code > 255 {
        255
    } else {
        code
    }
}

/// The exit code of a session in which the child ended with `status`.
pub fn session_exit_code(status: ChildStatus) -> (code: i32)
    requires
        status matches ChildStatus::Signaled(signal) ==> 128 + signal <= i32::MAX,
    ensures
        code == session_code(status),
        status matches ChildStatus::Exited(own) ==> code == own,
        status matches ChildStatus::Signaled(signal) ==> code == 128 + signal,
        status is Other ==> code == 1,
{
    match status {
        ChildStatus::Exited(code) => code,
        ChildStatus::Signaled(signal) => 128 + signal,
        ChildStatus::Other => 1,
    }
}

/// The code that the process exits with for a session's `code`.
pub fn process_exit_code(code: i32) -> (r: u8)
    ensures
        r == nearest_exit_code(code as int),
        0 <= code <= 255 ==> r == code,
        code < 0 ==> r == 0,
        code > 255 ==> r == 255,
{
    if code < 0 {
        0
    } else if code > 255 {
        255
    } else {
        code as u8
    }
}

} // verus!
