use microfiche::metaparser::{
    complete_exec, interpret_directive, read_directive, CommandRequest, DispatchStep, ExecOutcome,
    InterpretError,
};
use microfiche::scanner::scan_blocks;
use microfiche::symtab::{SymbolTable, SymbolTableBinding};

/// Runs a command request through a real child process and folds its
/// outcome into the directive's result.
fn run_request(req: CommandRequest) -> Result<String, InterpretError> {
    let capture = subprocess::Exec::cmd(&req.program)
        .args(&req.args)
        .stdin(req.input.clone())
        .stdout(subprocess::Redirection::Pipe)
        .stderr(subprocess::Redirection::Pipe)
        .capture();
    let outcome = match capture {
        Ok(c) => ExecOutcome {
            success: c.exit_status.success(),
            exit_code: c.exit_status.code().map(|n| n as i32),
            stdout: c.stdout_str(),
            stderr: c.stderr_str(),
        },
        Err(e) => ExecOutcome {
            success: false,
            exit_code: None,
            stdout: String::new(),
            stderr: e.to_string(),
        },
    };
    complete_exec(outcome)
}

fn dispatch(symtab: &mut SymbolTable, block: &str) -> Result<String, InterpretError> {
    match interpret_directive(symtab, block) {
        DispatchStep::Done(r) => r,
        DispatchStep::Command(req) => run_request(req),
    }
}

#[test]
fn scanner_splits_on_unindented_lines() {
    let input = "alpha\n    one\n    two\nbeta\ngamma x\n    y";
    let blocks = scan_blocks(input);
    assert_eq!(
        blocks,
        vec![
            "alpha\n    one\n    two".to_string(),
            "beta".to_string(),
            "gamma x\n    y".to_string(),
        ]
    );
}

#[test]
fn scanner_empty_document_yields_one_empty_block() {
    assert_eq!(scan_blocks(""), vec!["".to_string()]);
}

#[test]
fn scanner_consecutive_heads_are_separate_blocks() {
    assert_eq!(scan_blocks("a\nb"), vec!["a".to_string(), "b".to_string()]);
}

#[test]
fn scanner_rejoining_blocks_restores_the_document() {
    for input in ["", "a", "a\n", "a\n\nb", "x\n y\n z\nw", "\n", "  lead\nnext", "a\n b\nc\n d"] {
        assert_eq!(scan_blocks(input).join("\n"), input, "input {:?}", input);
    }
}

#[test]
fn parse_head_with_argument() {
    let inv = read_directive("foo bar baz").unwrap();
    assert_eq!(inv.name, "foo");
    assert_eq!(inv.harg, "bar baz");
    assert_eq!(inv.varg, "");
}

#[test]
fn parse_head_without_separator() {
    let inv = read_directive("foo").unwrap();
    assert_eq!(inv.name, "foo");
    assert_eq!(inv.harg, "");
    assert_eq!(inv.varg, "");
}

#[test]
fn parse_name_stops_at_punctuation() {
    let inv = read_directive("files.vimrc x").unwrap();
    assert_eq!(inv.name, "files");
    assert_eq!(inv.harg, "vimrc x");
}

#[test]
fn parse_body_strips_four_space_margin() {
    let inv = read_directive("exec cat\n    line1\n    line2").unwrap();
    assert_eq!(inv.name, "exec");
    assert_eq!(inv.harg, "cat");
    assert_eq!(inv.varg, "line1\nline2\n");
}

#[test]
fn parse_body_keeps_deeper_indentation() {
    let inv = read_directive("note k:\n    a:\n        nested").unwrap();
    assert_eq!(inv.varg, "a:\n    nested\n");
}

#[test]
fn parse_short_margin_is_malformed() {
    let r = read_directive("exec cat\n   three");
    assert!(matches!(r, Err(InterpretError::MalformedBlock)));
    let r = read_directive("exec cat\nx");
    assert!(matches!(r, Err(InterpretError::MalformedBlock)));
}

#[test]
fn exec_echo_produces_its_output() {
    let mut symtab = SymbolTable::root();
    let step = interpret_directive(&mut symtab, "exec echo hi");
    match step {
        DispatchStep::Command(req) => {
            assert_eq!(req.program, "echo");
            assert_eq!(req.args, vec!["hi".to_string()]);
            assert_eq!(req.input, "");
            assert_eq!(run_request(req).unwrap(), "hi\n");
        },
        DispatchStep::Done(r) => panic!("expected a command request, got {:?}", r.is_ok()),
    }
}

#[test]
fn exec_echo_ignores_its_body() {
    let mut symtab = SymbolTable::root();
    let step = interpret_directive(&mut symtab, "exec echo hi\n    (empty body)");
    match step {
        DispatchStep::Command(req) => {
            assert_eq!(req.program, "echo");
            assert_eq!(req.args, vec!["hi".to_string()]);
            assert_eq!(req.input, "(empty body)\n");
            assert_eq!(run_request(req).unwrap(), "hi\n");
        },
        DispatchStep::Done(r) => panic!("expected a command request, got {:?}", r.is_ok()),
    }
}

#[test]
fn exec_with_empty_inline_argument_fails() {
    let mut symtab = SymbolTable::root();
    let r = dispatch(&mut symtab, "exec\n    anything");
    assert!(matches!(r, Err(InterpretError::EmptyCommand)));
    let r = dispatch(&mut symtab, "exec   ");
    assert!(matches!(r, Err(InterpretError::EmptyCommand)));
}

#[test]
fn unregistered_directive_is_undefined() {
    let mut symtab = SymbolTable::root();
    match dispatch(&mut symtab, "frobnicate x") {
        Err(InterpretError::UndefinedDirective(name)) => assert_eq!(name, "frobnicate"),
        other => panic!("expected an undefined directive, got ok={:?}", other.is_ok()),
    }
}

#[test]
fn empty_document_dispatches_empty_name_as_undefined() {
    let mut symtab = SymbolTable::root();
    match dispatch(&mut symtab, "") {
        Err(InterpretError::UndefinedDirective(name)) => assert_eq!(name, ""),
        other => panic!("expected an undefined directive, got ok={:?}", other.is_ok()),
    }
}

#[test]
fn exec_cat_round_trips_its_input() {
    let mut symtab = SymbolTable::root();
    let step = interpret_directive(&mut symtab, "exec cat\n    line1\n    line2");
    match step {
        DispatchStep::Command(req) => {
            assert_eq!(req.program, "cat");
            assert_eq!(req.input, "line1\nline2\n");
            assert_eq!(run_request(req).unwrap(), "line1\nline2\n");
        },
        DispatchStep::Done(r) => panic!("expected a command request, got {:?}", r.is_ok()),
    }
}

#[test]
fn failing_command_reports_its_exit_code() {
    let mut symtab = SymbolTable::root();
    match dispatch(&mut symtab, "exec false") {
        Err(InterpretError::CommandFailed(code, _)) => assert_eq!(code, Some(1)),
        other => panic!("expected a command failure, got ok={:?}", other.is_ok()),
    }
}

#[test]
fn missing_program_reports_a_failure() {
    let mut symtab = SymbolTable::root();
    match dispatch(&mut symtab, "exec no_such_program_exists_here") {
        Err(InterpretError::CommandFailed(code, msg)) => {
            assert_eq!(code, None);
            assert!(!msg.is_empty());
        },
        other => panic!("expected a command failure, got ok={:?}", other.is_ok()),
    }
}

#[test]
fn note_binding_is_visible_to_later_directives_only() {
    let mut symtab = SymbolTable::root();
    // Before the note runs, the name is undefined.
    match dispatch(&mut symtab, "memo") {
        Err(InterpretError::UndefinedDirective(name)) => assert_eq!(name, "memo"),
        other => panic!("expected an undefined directive, got ok={:?}", other.is_ok()),
    }
    // The note directive itself succeeds with empty output.
    assert_eq!(dispatch(&mut symtab, "note memo:\n    hello").unwrap(), "");
    // Afterwards the name is bound (to data, so invoking it fails
    // differently: the binding is visible).
    match dispatch(&mut symtab, "memo") {
        Err(InterpretError::NotInvocable(name)) => assert_eq!(name, "memo"),
        other => panic!("expected a not-invocable failure, got ok={:?}", other.is_ok()),
    }
}

#[test]
fn note_captures_flat_body_as_data() {
    let mut symtab = SymbolTable::root();
    assert_eq!(dispatch(&mut symtab, "note memo:\n    hello\n    world").unwrap(), "");
    match symtab.lookup("memo") {
        Some(SymbolTableBinding::Data(s)) => assert_eq!(s, "hello\nworld\n"),
        _ => panic!("expected a data binding for memo"),
    }
}

#[test]
fn note_captures_keyed_body_as_nested_module() {
    let mut symtab = SymbolTable::root();
    let block = "note dot_files:\n    vimrc:\n        set number\n    bashrc:\n        alias l='ls'";
    assert_eq!(dispatch(&mut symtab, block).unwrap(), "");
    let module = match symtab.lookup("dot_files") {
        Some(SymbolTableBinding::Module(m)) => m,
        _ => panic!("expected a module binding for dot_files"),
    };
    match module.lookup("vimrc") {
        Some(SymbolTableBinding::Data(s)) => assert_eq!(s, "set number\n"),
        _ => panic!("expected a data binding for vimrc"),
    }
    match module.lookup("bashrc") {
        Some(SymbolTableBinding::Data(s)) => assert_eq!(s, "alias l='ls'\n"),
        _ => panic!("expected a data binding for bashrc"),
    }
    assert!(module.lookup("other").is_none());
}

#[test]
fn note_with_repeated_key_keeps_the_last_capture() {
    let mut symtab = SymbolTable::root();
    let block = "note m:\n    k:\n        first\n    k:\n        second";
    assert_eq!(dispatch(&mut symtab, block).unwrap(), "");
    let module = match symtab.lookup("m") {
        Some(SymbolTableBinding::Module(m)) => m,
        _ => panic!("expected a module binding for m"),
    };
    match module.lookup("k") {
        Some(SymbolTableBinding::Data(s)) => assert_eq!(s, "second\n"),
        _ => panic!("expected a data binding for k"),
    }
}

#[test]
fn note_rebinding_replaces_earlier_binding() {
    let mut symtab = SymbolTable::root();
    dispatch(&mut symtab, "note memo:\n    one").unwrap();
    dispatch(&mut symtab, "note memo:\n    two").unwrap();
    match symtab.lookup("memo") {
        Some(SymbolTableBinding::Data(s)) => assert_eq!(s, "two\n"),
        _ => panic!("expected a data binding for memo"),
    }
}

#[test]
fn error_messages_render() {
    let e = InterpretError::UndefinedDirective("frobnicate".to_string());
    assert_eq!(e.message(), "Undefined directive frobnicate");
    assert_eq!(InterpretError::EmptyCommand.message(), "Empty shell command.");
}

#[test]
fn interpretation_runs_blocks_in_order_and_stops_on_error() {
    // A miniature driver over the library, as the embedding program runs it.
    let input = "exec echo one\nfrobnicate\nexec echo two";
    let mut symtab = SymbolTable::root();
    let mut output = String::new();
    let mut error = None;
    for block in scan_blocks(input) {
        match dispatch(&mut symtab, &block) {
            Ok(text) => output.push_str(&text),
            Err(e) => {
                error = Some(e);
                break;
            },
        }
    }
    assert_eq!(output, "one\n");
    assert!(matches!(error, Some(InterpretError::UndefinedDirective(_))));
}
