//! The decisions of a wrapped shell session.
use nix_pretty::pipe::PipeEvent;
use nix_pretty::session::{
    build_argv, forward_next, initial_window_size, master_event, plan_launch, process_exit_code,
    session_exit_code, write_next, write_start, ArgvError, ChildStatus, ForwardAction,
    ForwardEvent, Launch, MasterRead, WindowSize, WriteAction, WriteEvent,
};

fn strings(args: &[&str]) -> Vec<String> {
    args.iter().map(|s| s.to_string()).collect()
}

fn run_of(launch: Launch) -> (String, Vec<String>) {
    match launch {
        Launch::Run { shell, args } => (shell, args),
        Launch::Help => panic!("asked for help"),
    }
}

#[test]
fn help_is_asked_for_by_the_first_argument_only() {
    assert!(matches!(plan_launch(strings(&["--help"]), None), Launch::Help));
    assert!(matches!(plan_launch(strings(&["-h", "x"]), None), Launch::Help));
    let (_, args) = run_of(plan_launch(strings(&["-c", "--help"]), None));
    assert_eq!(args, strings(&["-c", "--help"]));
}

#[test]
fn shell_defaults_to_an_interactive_bash() {
    let (shell, args) = run_of(plan_launch(Vec::new(), None));
    assert_eq!(shell, "bash");
    assert_eq!(args, strings(&["-i"]));
}

#[test]
fn named_shell_and_arguments_are_kept() {
    let named = Some("/bin/zsh".to_string());
    let (shell, args) = run_of(plan_launch(strings(&["-l"]), named));
    assert_eq!(shell, "/bin/zsh");
    assert_eq!(args, strings(&["-l"]));
}

#[test]
fn argv_is_the_command_and_its_arguments() {
    let argv = build_argv(b"bash".to_vec(), vec![b"-c".to_vec(), b"ls".to_vec()]);
    assert_eq!(
        argv,
        Ok(vec![b"bash".to_vec(), b"-c".to_vec(), b"ls".to_vec()])
    );
    assert_eq!(build_argv(Vec::new(), Vec::new()), Ok(vec![Vec::new()]));
}

#[test]
fn argv_refuses_nul_bytes() {
    assert_eq!(
        build_argv(b"ba\0sh".to_vec(), vec![b"\0".to_vec()]),
        Err(ArgvError::Command)
    );
    assert_eq!(
        build_argv(b"bash".to_vec(), vec![b"-c".to_vec(), b"l\0s".to_vec()]),
        Err(ArgvError::Argument)
    );
    assert_eq!(ArgvError::Command.reason(), "invalid command name");
    assert_eq!(ArgvError::Argument.reason(), "invalid argument");
}

#[test]
fn window_size_is_mirrored_or_falls_back() {
    let outer = WindowSize {
        rows: 42,
        cols: 137,
        xpixel: 1,
        ypixel: 2,
    };
    assert_eq!(initial_window_size(Some(outer)), outer);
    assert_eq!(
        initial_window_size(None),
        WindowSize {
            rows: 24,
            cols: 80,
            xpixel: 0,
            ypixel: 0,
        }
    );
}

#[test]
fn a_closed_terminal_is_the_end_of_the_output() {
    assert!(matches!(
        master_event(MasterRead::Bytes(b"ab")),
        PipeEvent::Read(b"ab")
    ));
    assert!(matches!(
        master_event(MasterRead::HungUp),
        PipeEvent::Read(b"")
    ));
    assert!(matches!(
        master_event(MasterRead::Interrupted),
        PipeEvent::ReadInterrupted
    ));
    assert!(matches!(
        master_event(MasterRead::Failed),
        PipeEvent::ReadFailed
    ));
}

#[test]
fn writing_goes_on_until_all_is_written() {
    assert_eq!(write_start(0), WriteAction::Done);
    assert_eq!(write_start(5), WriteAction::WriteFrom(0));
    assert_eq!(
        write_next(5, 0, WriteEvent::Wrote(2)),
        WriteAction::WriteFrom(2)
    );
    assert_eq!(
        write_next(5, 2, WriteEvent::Interrupted),
        WriteAction::WriteFrom(2)
    );
    assert_eq!(
        write_next(5, 2, WriteEvent::Wrote(0)),
        WriteAction::WriteFrom(2)
    );
    assert_eq!(write_next(5, 2, WriteEvent::Wrote(3)), WriteAction::Done);
    assert_eq!(write_next(5, 2, WriteEvent::Failed), WriteAction::Fail);
}

#[test]
fn keystrokes_are_forwarded_until_they_end_or_fail() {
    assert_eq!(forward_next(ForwardEvent::Read(7)), ForwardAction::Write(7));
    assert_eq!(forward_next(ForwardEvent::Read(0)), ForwardAction::Stop);
    assert_eq!(
        forward_next(ForwardEvent::ReadInterrupted),
        ForwardAction::Read
    );
    assert_eq!(forward_next(ForwardEvent::ReadFailed), ForwardAction::Stop);
    assert_eq!(forward_next(ForwardEvent::Written), ForwardAction::Read);
    assert_eq!(forward_next(ForwardEvent::WriteFailed), ForwardAction::Stop);
}

#[test]
fn exit_codes_are_passed_on() {
    for code in 0..=255 {
        let session = session_exit_code(ChildStatus::Exited(code));
        assert_eq!(process_exit_code(session) as i32, code);
    }
    assert_eq!(session_exit_code(ChildStatus::Signaled(9)), 137);
    assert_eq!(session_exit_code(ChildStatus::Other), 1);
    assert_eq!(process_exit_code(-1), 0);
    assert_eq!(process_exit_code(256), 255);
    assert_eq!(process_exit_code(i32::MAX), 255);
}
