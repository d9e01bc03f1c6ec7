use syscall_runner::cast::Arena;
use syscall_runner::cast::CastArg;
use syscall_runner::cli::parse_args;
use syscall_runner::error::ScxError;
use syscall_runner::sysno::resolve_sysno;

fn argv(items: &[&str]) -> Vec<String> {
    items.iter().map(|s| s.to_string()).collect()
}

#[test]
fn only_the_first_six_arguments_pass() {
    let mut arena = Arena::new();
    let args = argv(&["prog", "39", "s:a", "n:1", "n:2", "n:3", "n:4", "n:5", "n:6"]);
    let (sysno, s) = parse_args(&args, &mut arena).unwrap();
    assert_eq!(sysno.id(), 39);
    assert_eq!(s.id, 39);
    assert_eq!(
        s.args,
        vec![
            CastArg::String(0),
            CastArg::Number(1),
            CastArg::Number(2),
            CastArg::Number(3),
            CastArg::Number(4),
            CastArg::Number(5),
        ]
    );
    assert_eq!(arena.buffer(0).as_slice(), b"a");
    assert_eq!(s.words(&vec![777]), [777, 1, 2, 3, 4, 5]);
}

#[test]
fn arguments_past_the_sixth_are_still_checked() {
    let mut arena = Arena::new();
    let args = argv(&["prog", "39", "n:1", "n:2", "n:3", "n:4", "n:5", "n:6", "bad"]);
    assert_eq!(parse_args(&args, &mut arena).err(), Some(ScxError::ArgumentFormat));
}

#[test]
fn call_number_alone() {
    let mut arena = Arena::new();
    let (_, s) = parse_args(&argv(&["prog", "39"]), &mut arena).unwrap();
    assert!(s.args.is_empty());
    assert_eq!(s.words(&vec![]), [0; 6]);
}

#[test]
fn missing_call_number() {
    let mut arena = Arena::new();
    assert_eq!(parse_args(&argv(&["prog"]), &mut arena).err(), Some(ScxError::ArgumentCount));
    assert_eq!(parse_args(&argv(&[]), &mut arena).err(), Some(ScxError::ArgumentCount));
}

#[test]
fn call_number_must_be_unsigned_decimal() {
    let mut arena = Arena::new();
    assert_eq!(parse_args(&argv(&["prog", "abc"]), &mut arena).err(), Some(ScxError::Parse));
    assert_eq!(parse_args(&argv(&["prog", "-1"]), &mut arena).err(), Some(ScxError::Parse));
}

#[test]
fn unknown_call_number() {
    let mut arena = Arena::new();
    let r = parse_args(&argv(&["prog", "999999", "n:1"]), &mut arena);
    assert_eq!(r.err(), Some(ScxError::UnknownSyscall));
}

#[test]
fn bad_argument_fails_the_command_line() {
    let mut arena = Arena::new();
    let r = parse_args(&argv(&["prog", "39", "n:1", "q:2"]), &mut arena);
    assert_eq!(r.err(), Some(ScxError::ArgumentFormat));
    let r = parse_args(&argv(&["prog", "39", "n:x"]), &mut arena);
    assert_eq!(r.err(), Some(ScxError::Parse));
}

#[test]
fn known_and_unknown_numbers() {
    let s = resolve_sysno(39).unwrap();
    assert_eq!(s.id(), 39);
    assert_eq!(resolve_sysno(999999).err(), Some(ScxError::UnknownSyscall));
}
