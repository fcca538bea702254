use agerus_core::shell::{ShellAction, ShellCore, ShellEvent, ShellRequest};

fn run(core: &mut ShellCore, ev: ShellEvent) -> Vec<ShellAction> {
    core.step(ev)
}

fn contains_sub(hay: &[u8], needle: &[u8]) -> bool {
    hay.windows(needle.len()).any(|w| w == needle)
}

#[test]
fn echo_reaches_reply_channel_and_terminal_but_the_sentinel_never_does() {
    let mut core = ShellCore::new(b"__END_OF_CMD__".to_vec());
    let acts = run(&mut core, ShellEvent::Request(ShellRequest::RunCommand(b"echo A".to_vec())));
    assert_eq!(
        acts,
        vec![ShellAction::WriteInput(
            b"{ echo A; } 2>&1; echo __END_OF_CMD__\n".to_vec()
        )]
    );

    // the process answers with the line, then the sentinel
    let acts = run(&mut core, ShellEvent::OutputLine(b"A\n".to_vec()));
    assert_eq!(
        acts,
        vec![
            ShellAction::EmitTerminal(b"A".to_vec()),
            ShellAction::Forward { ticket: 0, line: b"A".to_vec() },
        ]
    );
    let acts = run(&mut core, ShellEvent::OutputLine(b"__END_OF_CMD__\n".to_vec()));
    assert_eq!(acts, vec![ShellAction::CloseReply { ticket: 0 }]);

    // nothing that surfaced held the sentinel
    for act in [
        run(&mut core, ShellEvent::OutputLine(b"later\n".to_vec())),
    ]
    .concat()
    {
        match act {
            ShellAction::EmitTerminal(l) | ShellAction::Forward { line: l, .. } => {
                assert!(!contains_sub(&l, b"__END_OF_CMD__"));
            }
            _ => {}
        }
    }
}

#[test]
fn output_without_responder_goes_to_the_terminal_only() {
    let mut core = ShellCore::new(b"MARK".to_vec());
    let acts = run(&mut core, ShellEvent::OutputLine(b"stray\r\n".to_vec()));
    assert_eq!(acts, vec![ShellAction::EmitTerminal(b"stray".to_vec())]);
}

#[test]
fn user_input_is_written_raw_and_clears_the_responder() {
    let mut core = ShellCore::new(b"MARK".to_vec());
    run(&mut core, ShellEvent::Request(ShellRequest::RunCommand(b"sleep 5".to_vec())));
    let acts = run(&mut core, ShellEvent::Request(ShellRequest::UserInput(b"ls".to_vec())));
    assert_eq!(
        acts,
        vec![
            ShellAction::CloseReply { ticket: 0 },
            ShellAction::WriteInput(b"ls\n".to_vec()),
        ]
    );
    // later output is observation only
    let acts = run(&mut core, ShellEvent::OutputLine(b"file\n".to_vec()));
    assert_eq!(acts, vec![ShellAction::EmitTerminal(b"file".to_vec())]);
}

#[test]
fn a_second_command_steals_the_correlation() {
    // the documented policy for the race: a RunCommand submitted while
    // one is pending abandons the prior correlation; the first reply
    // channel closes unanswered and all further output goes to the
    // second command
    let mut core = ShellCore::new(b"MARK".to_vec());
    run(&mut core, ShellEvent::Request(ShellRequest::RunCommand(b"first".to_vec())));
    let acts = run(&mut core, ShellEvent::Request(ShellRequest::RunCommand(b"second".to_vec())));
    assert_eq!(acts[0], ShellAction::CloseReply { ticket: 0 });
    assert!(matches!(&acts[1], ShellAction::WriteInput(_)));

    let acts = run(&mut core, ShellEvent::OutputLine(b"from-first\n".to_vec()));
    assert_eq!(
        acts,
        vec![
            ShellAction::EmitTerminal(b"from-first".to_vec()),
            ShellAction::Forward { ticket: 1, line: b"from-first".to_vec() },
        ]
    );

    // the first sentinel that arrives closes the second correlation:
    // attribution is by order, not by origin
    let acts = run(&mut core, ShellEvent::OutputLine(b"MARK\n".to_vec()));
    assert_eq!(acts, vec![ShellAction::CloseReply { ticket: 1 }]);
}

#[test]
fn end_of_stream_stops_the_actor() {
    let mut core = ShellCore::new(b"MARK".to_vec());
    let acts = run(&mut core, ShellEvent::OutputClosed);
    assert_eq!(acts, vec![ShellAction::Stop]);
    // stopped: every further event is ignored
    let acts = run(&mut core, ShellEvent::OutputLine(b"x\n".to_vec()));
    assert_eq!(acts, vec![]);
}

#[test]
fn a_line_merely_containing_the_sentinel_is_swallowed() {
    let mut core = ShellCore::new(b"MARK".to_vec());
    run(&mut core, ShellEvent::Request(ShellRequest::RunCommand(b"grep".to_vec())));
    let acts = run(&mut core, ShellEvent::OutputLine(b"prompt$ MARK\n".to_vec()));
    assert_eq!(acts, vec![ShellAction::CloseReply { ticket: 0 }]);
}
