use cs140e::shell::{
    parse_u32, Builtin, Command, Error, LineEditor, LsTarget, NumberArg, BS, CTRL_A, CTRL_B,
    CTRL_D, CTRL_E, CTRL_K, CTRL_N, CTRL_P, CTRL_U, DE, ESC, GN, GR, MAXARG, MAXBUF,
};

/// Feeds `input` to a fresh editor; returns the echo and the finished line.
fn type_line(history: &mut Vec<Vec<u8>>, input: &[u8]) -> (Vec<u8>, String) {
    let mut ed = LineEditor::new(history.len());
    let mut echo = Vec::new();
    for &b in input {
        let (out, done) = ed.step(history, b);
        echo.extend(out);
        if done {
            return (echo, ed.finish(history));
        }
    }
    panic!("line not finished");
}

#[test]
fn editor_inserts_and_finishes() {
    let mut history = Vec::new();
    let (echo, line) = type_line(&mut history, b"ls -a\r");
    assert_eq!(line, "ls -a");
    assert_eq!(echo, b"ls -a\n".to_vec());
    assert_eq!(history, vec![b"ls -a".to_vec()]);
}

#[test]
fn editor_newline_also_finishes() {
    let mut history = Vec::new();
    let (_, line) = type_line(&mut history, &[b'x', GR]);
    assert_eq!(line, "x");
    let (_, line) = type_line(&mut history, &[GN]);
    assert_eq!(line, "");
    assert_eq!(history.len(), 2);
}

#[test]
fn editor_backspace_in_the_middle() {
    let mut history = Vec::new();
    let mut ed = LineEditor::new(0);
    for &b in b"abc" {
        ed.step(&history, b);
    }
    ed.step(&history, CTRL_B);
    let (out, done) = ed.step(&history, BS);
    assert!(!done);
    assert_eq!(ed.line(), &b"ac".to_vec());
    assert_eq!(ed.cursor(), 1);
    assert_eq!(out, vec![BS, b'c', b' ', BS, BS]);
    let (out, _) = ed.step(&history, DE);
    assert_eq!(ed.line(), &b"c".to_vec());
    assert_eq!(out, vec![BS, b'c', b' ', BS, BS]);
    // nothing to delete at the start of the line: the bell rings
    let (out, _) = ed.step(&history, DE);
    assert_eq!(out, vec![0x07]);
    assert_eq!(ed.finish(&mut history), "c");
}

#[test]
fn editor_insert_in_the_middle_redraws_the_tail() {
    let history = Vec::new();
    let mut ed = LineEditor::new(0);
    ed.step(&history, b'a');
    ed.step(&history, b'c');
    ed.step(&history, CTRL_B);
    let (out, _) = ed.step(&history, b'b');
    assert_eq!(out, vec![b'b', b'c', BS]);
    assert_eq!(ed.line(), &b"abc".to_vec());
    assert_eq!(ed.cursor(), 2);
}

#[test]
fn editor_cursor_moves() {
    let history = Vec::new();
    let mut ed = LineEditor::new(0);
    for &b in b"abcd" {
        ed.step(&history, b);
    }
    let (out, _) = ed.step(&history, CTRL_A);
    assert_eq!(out, vec![BS; 4]);
    assert_eq!(ed.cursor(), 0);
    let (out, _) = ed.step(&history, CTRL_B);
    assert!(out.is_empty());
    let (out, _) = ed.step(&history, CTRL_E);
    assert_eq!(out, [ESC, b'[', b'C'].repeat(4));
    assert_eq!(ed.cursor(), 4);
    ed.step(&history, ESC);
    ed.step(&history, b'[');
    let (out, _) = ed.step(&history, b'D');
    assert_eq!(out, vec![BS]);
    assert_eq!(ed.cursor(), 3);
    ed.step(&history, ESC);
    ed.step(&history, b'[');
    let (out, _) = ed.step(&history, b'C');
    assert_eq!(out, vec![ESC, b'[', b'C']);
    assert_eq!(ed.cursor(), 4);
}

#[test]
fn editor_delete_and_kill() {
    let history = Vec::new();
    let mut ed = LineEditor::new(0);
    for &b in b"hello" {
        ed.step(&history, b);
    }
    ed.step(&history, CTRL_A);
    let (out, _) = ed.step(&history, CTRL_D);
    assert_eq!(ed.line(), &b"ello".to_vec());
    assert_eq!(out, [b"ello".to_vec(), vec![b' ', BS], vec![BS; 4]].concat());
    ed.step(&history, CTRL_F_BYTE);
    ed.step(&history, CTRL_F_BYTE);
    let (out, _) = ed.step(&history, CTRL_K);
    assert_eq!(out, vec![ESC, b'[', b'K']);
    assert_eq!(ed.line(), &b"el".to_vec());
    let (out, _) = ed.step(&history, CTRL_U);
    assert!(ed.line().is_empty());
    assert_eq!(ed.cursor(), 0);
    assert_eq!(out, [BS, b' ', BS].repeat(2));
}

const CTRL_F_BYTE: u8 = 0x06;

#[test]
fn editor_history_recall() {
    let mut history = vec![b"first".to_vec(), b"second".to_vec()];
    let mut ed = LineEditor::new(history.len());
    ed.step(&history, b'x');
    let (out, _) = ed.step(&history, CTRL_P);
    assert_eq!(ed.line(), &b"second".to_vec());
    assert_eq!(out, [vec![BS, b' ', BS], b"second".to_vec()].concat());
    ed.step(&history, ESC);
    ed.step(&history, b'[');
    ed.step(&history, b'A');
    assert_eq!(ed.line(), &b"first".to_vec());
    // already at the oldest entry: the bell rings
    ed.step(&history, ESC);
    ed.step(&history, b'[');
    let (out, _) = ed.step(&history, b'A');
    assert_eq!(out, vec![0x07]);
    let (_, _) = ed.step(&history, CTRL_N);
    assert_eq!(ed.line(), &b"second".to_vec());
    let (out, _) = ed.step(&history, CTRL_N);
    assert!(out.is_empty());
    assert_eq!(ed.finish(&mut history), "second");
    assert_eq!(history.len(), 3);
}

#[test]
fn editor_rings_on_unknown_bytes_and_full_lines() {
    let history = Vec::new();
    let mut ed = LineEditor::new(0);
    let (out, _) = ed.step(&history, 0x03);
    assert_eq!(out, vec![0x07]);
    ed.step(&history, ESC);
    let (out, _) = ed.step(&history, b'x');
    assert_eq!(out, vec![0x07]);
    for _ in 0..MAXBUF {
        ed.step(&history, b'z');
    }
    assert_eq!(ed.line().len(), MAXBUF);
    let (out, _) = ed.step(&history, b'z');
    assert_eq!(out, vec![0x07]);
    assert_eq!(ed.line().len(), MAXBUF);
}

#[test]
fn command_parse_splits_on_spaces() {
    let cmd = Command::parse("  echo  hello   world ").unwrap();
    assert_eq!(cmd.args(), &vec!["echo", "hello", "world"]);
    assert_eq!(cmd.path(), "echo");
    assert_eq!(cmd.builtin(), Builtin::Echo);
}

#[test]
fn command_parse_errors() {
    assert!(matches!(Command::parse(""), Err(Error::Empty)));
    assert!(matches!(Command::parse("    "), Err(Error::Empty)));
    let many = vec!["a"; MAXARG + 1].join(" ");
    assert!(matches!(Command::parse(&many), Err(Error::TooManyArgs)));
    let just = vec!["a"; MAXARG].join(" ");
    assert_eq!(Command::parse(&just).unwrap().args().len(), MAXARG);
}

#[test]
fn builtins_by_name() {
    let cases = [
        ("echo", Builtin::Echo),
        ("pwd", Builtin::Pwd),
        ("cd", Builtin::Cd),
        ("ls", Builtin::Ls),
        ("cat", Builtin::Cat),
        ("allocator", Builtin::Allocator),
        ("sleep", Builtin::Sleep),
        ("kill", Builtin::Kill),
        ("ps", Builtin::Unknown),
        ("Echo", Builtin::Unknown),
    ];
    for (name, b) in cases.iter() {
        assert_eq!(Command::parse(name).unwrap().builtin(), *b);
    }
}

#[test]
fn echo_prints_its_arguments() {
    assert_eq!(Command::parse("echo a  b").unwrap().echo_text(), "a b \n");
    assert_eq!(Command::parse("echo").unwrap().echo_text(), "\n");
}

#[test]
fn number_arguments() {
    assert_eq!(Command::parse("sleep").unwrap().number_arg(), NumberArg::Missing);
    assert_eq!(Command::parse("sleep 250").unwrap().number_arg(), NumberArg::Run(250));
    assert_eq!(Command::parse("kill +7").unwrap().number_arg(), NumberArg::Run(7));
    assert_eq!(Command::parse("kill x").unwrap().number_arg(), NumberArg::Wrong);
    assert_eq!(Command::parse("kill 1 2").unwrap().number_arg(), NumberArg::TooMany);
}

#[test]
fn parse_u32_as_str_parse() {
    for s in ["0", "42", "+42", "4294967295", "4294967296", "", "+", "-1", "1a", "007"] {
        assert_eq!(parse_u32(s), s.parse::<u32>().ok(), "{}", s);
    }
}

#[test]
fn cd_takes_one_argument() {
    assert_eq!(Command::parse("cd /a").unwrap().single_arg().unwrap(), "/a");
    assert!(Command::parse("cd").unwrap().single_arg().is_none());
    assert!(Command::parse("cd a b").unwrap().single_arg().is_none());
}

#[test]
fn ls_plans() {
    let plan = |s: &str| Command::parse(s).unwrap().ls_plan();
    assert!(matches!(plan("ls"), Some((false, LsTarget::Cwd))));
    assert!(matches!(plan("ls -a"), Some((true, LsTarget::Cwd))));
    match plan("ls sub") {
        Some((false, LsTarget::Joined(p))) => assert_eq!(p, "sub"),
        other => panic!("unexpected {:?}", other),
    }
    match plan("ls -a /sub") {
        Some((true, LsTarget::Given(p))) => assert_eq!(p, "/sub"),
        other => panic!("unexpected {:?}", other),
    }
    match plan("ls sub -a") {
        Some((true, LsTarget::Joined(p))) => assert_eq!(p, "sub"),
        other => panic!("unexpected {:?}", other),
    }
    assert!(plan("ls a b").is_none());
    assert!(plan("ls -a b c").is_none());
}

#[test]
fn ps_takes_no_argument() {
    assert!(Command::parse("ps").unwrap().no_args());
    assert!(!Command::parse("ps x").unwrap().no_args());
}

#[test]
fn editor_recalled_line_fills_the_buffer_capacity() {
    let long = vec![b'q'; 300];
    let history = vec![long.clone()];
    let mut ed = LineEditor::new(history.len());
    assert_eq!(ed.capacity(), MAXBUF);
    assert_eq!(ed.recall_target(&history, CTRL_P), Some(0));
    assert_eq!(ed.recall_target(&history, CTRL_N), None);
    assert_eq!(ed.recall_target(&history, b'a'), None);
    ed.step(&history, CTRL_P);
    assert_eq!(ed.line(), &long);
    let cap = ed.capacity();
    assert!(cap >= MAXBUF);
    while ed.line().len() < cap {
        let (out, _) = ed.step(&history, b'r');
        assert_eq!(out, vec![b'r']);
    }
    let (out, _) = ed.step(&history, b'r');
    assert_eq!(out, vec![0x07]);
    assert_eq!(ed.line().len(), cap);
    // a full buffer rings for a recall key too
    let (out, _) = ed.step(&history, CTRL_P);
    assert_eq!(out, vec![0x07]);
}
