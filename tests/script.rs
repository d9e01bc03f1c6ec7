use syscall_runner::cast::Arena;
use syscall_runner::cast::CastArg;
use syscall_runner::error::ScxError;
use syscall_runner::lexer::tokenize;
use syscall_runner::lexer::Token;
use syscall_runner::lexer::TokenKind;
use syscall_runner::script::plan_script;
use syscall_runner::script::prepare_call;
use syscall_runner::script::LineError;
use syscall_runner::statement::parse_statement;
use syscall_runner::statement::parse_string_literal;

fn lines(text: &[&str]) -> Vec<Vec<u8>> {
    text.iter().map(|l| l.as_bytes().to_vec()).collect()
}

#[test]
fn tokens_of_a_statement() {
    let ts = tokenize(b"syscall 1 \"hi\" -3").unwrap();
    assert_eq!(
        ts,
        vec![
            Token { kind: TokenKind::Syscall, start: 0, end: 7 },
            Token { kind: TokenKind::Number, start: 8, end: 9 },
            Token { kind: TokenKind::String, start: 10, end: 14 },
            Token { kind: TokenKind::Number, start: 15, end: 17 },
        ]
    );
}

#[test]
fn comment_and_blank_lines_have_no_tokens() {
    assert_eq!(tokenize(b"# syscall 1 @@@"), Ok(vec![]));
    assert_eq!(tokenize(b""), Ok(vec![]));
    assert_eq!(tokenize(b" \t "), Ok(vec![]));
}

#[test]
fn tokenization_failures() {
    assert_eq!(tokenize(b"syscall 1 \"open"), Err(ScxError::Tokenization));
    assert_eq!(tokenize(b"syscall 1 @"), Err(ScxError::Tokenization));
    assert_eq!(tokenize(b"syscall +"), Err(ScxError::Tokenization));
    assert_eq!(tokenize(b"  # not at the start"), Err(ScxError::Tokenization));
}

#[test]
fn keyword_runs_into_digits() {
    let ts = tokenize(b"syscall12").unwrap();
    assert_eq!(ts.len(), 2);
    assert_eq!(ts[1], Token { kind: TokenKind::Number, start: 7, end: 9 });
}

#[test]
fn string_literal_escapes() {
    assert_eq!(parse_string_literal(b"\"a\\nb\\tc\""), b"a\nb\tc".to_vec());
    assert_eq!(parse_string_literal(b"\"\""), Vec::<u8>::new());
    assert_eq!(parse_string_literal(b"\"a\\\\nb\""), b"a\\\nb".to_vec());
    assert_eq!(parse_string_literal(b"\"\\x\""), b"\\x".to_vec());
}

#[test]
fn statement_with_string_and_numbers() {
    let mut arena = Arena::new();
    let s = parse_statement(b"syscall 1 n 2", &mut arena);
    assert_eq!(s.err(), Some(ScxError::Tokenization));
    let s = parse_statement(b"syscall 1 1 \"hi\\n\" 3", &mut arena).unwrap().unwrap();
    assert_eq!(s.id, 1);
    assert_eq!(s.args, vec![CastArg::Number(1), CastArg::String(0), CastArg::Number(3)]);
    assert_eq!(arena.buffer(0).as_slice(), b"hi\n");
}

#[test]
fn statement_without_arguments_is_refused() {
    let mut arena = Arena::new();
    assert_eq!(parse_statement(b"syscall", &mut arena).err(), Some(ScxError::ArgumentCount));
}

#[test]
fn statement_with_seven_arguments_is_refused() {
    let mut arena = Arena::new();
    let r = parse_statement(b"syscall 1 1 2 3 4 5 6 7", &mut arena);
    assert_eq!(r.err(), Some(ScxError::ArgumentCount));
}

#[test]
fn statement_with_six_arguments_is_accepted() {
    let mut arena = Arena::new();
    let s = parse_statement(b"syscall 1 1 2 3 4 5 6", &mut arena).unwrap().unwrap();
    assert_eq!(s.args.len(), 6);
    assert_eq!(s.args[5], CastArg::Number(6));
}

#[test]
fn statement_number_only() {
    let mut arena = Arena::new();
    let s = parse_statement(b"syscall 39", &mut arena).unwrap().unwrap();
    assert_eq!(s.id, 39);
    assert!(s.args.is_empty());
}

#[test]
fn later_keywords_are_skipped() {
    let mut arena = Arena::new();
    let s = parse_statement(b"syscall 1 syscall 2", &mut arena).unwrap().unwrap();
    assert_eq!(s.id, 1);
    assert_eq!(s.args, vec![CastArg::Number(2)]);
}

#[test]
fn call_number_must_be_a_number() {
    let mut arena = Arena::new();
    let r = parse_statement(b"syscall \"x\" 1", &mut arena);
    assert_eq!(r.err(), Some(ScxError::Parse));
    let r = parse_statement(b"syscall 1 99999999999999999999999", &mut arena);
    assert_eq!(r.err(), Some(ScxError::Parse));
}

#[test]
fn lines_without_the_keyword_are_skipped() {
    let mut arena = Arena::new();
    assert!(parse_statement(b"1 2 3", &mut arena).unwrap().is_none());
    assert!(parse_statement(b"1 syscall 2", &mut arena).unwrap().is_none());
    assert!(parse_statement(b"# syscall 1", &mut arena).unwrap().is_none());
}

#[test]
fn comment_then_one_statement() {
    let mut arena = Arena::new();
    let calls = plan_script(&lines(&["# comment", "syscall 1 \"hi\""]), &mut arena).unwrap();
    assert_eq!(calls.len(), 1);
    assert_eq!(calls[0].line, 2);
    assert_eq!(calls[0].statement.id, 1);
    assert_eq!(calls[0].statement.args, vec![CastArg::String(0)]);
    assert_eq!(arena.buffer(0).as_slice(), b"hi");
    let addresses = vec![4096usize];
    let (_, words) = prepare_call(&calls[0], &addresses).unwrap();
    assert_eq!(words, [4096, 0, 0, 0, 0, 0]);
}

#[test]
fn calls_keep_file_order_with_an_unknown_number() {
    let mut arena = Arena::new();
    let calls =
        plan_script(&lines(&["syscall 39", "", "syscall 999999 1"]), &mut arena).unwrap();
    assert_eq!(calls.len(), 2);
    assert_eq!(calls[0].line, 1);
    assert_eq!(calls[1].line, 3);
    let first = prepare_call(&calls[0], &vec![]);
    assert!(first.is_ok());
    let second = prepare_call(&calls[1], &vec![]);
    assert_eq!(second.err(), Some(ScxError::UnknownSyscall));
}

#[test]
fn a_bad_line_stops_the_whole_script() {
    let mut arena = Arena::new();
    let r = plan_script(&lines(&["syscall 39", "syscall 1 \"x", "syscall 39"]), &mut arena);
    assert_eq!(r.err(), Some(LineError { line: 2, error: ScxError::Tokenization }));
    let r = plan_script(&lines(&["syscall 39", "syscall"]), &mut arena);
    assert_eq!(r.err(), Some(LineError { line: 2, error: ScxError::ArgumentCount }));
}

#[test]
fn empty_script_has_no_calls() {
    let mut arena = Arena::new();
    assert!(plan_script(&vec![], &mut arena).unwrap().is_empty());
}

#[test]
fn prepared_words_follow_the_arguments() {
    let mut arena = Arena::new();
    let calls = plan_script(&lines(&["syscall 1 7 \"a\" -1"]), &mut arena).unwrap();
    let (sysno, words) = prepare_call(&calls[0], &vec![8192]).unwrap();
    assert_eq!(sysno.id(), 1);
    assert_eq!(words, [7, 8192, usize::MAX, 0, 0, 0]);
}
