use syscall_runner::cast::Arena;
use syscall_runner::cast::CastArg;
use syscall_runner::error::ScxError;
use syscall_runner::number::parse_decimal;
use syscall_runner::number::parse_word;

#[test]
fn string_token_holds_its_text() {
    let mut arena = Arena::new();
    let arg = CastArg::new("s:hello", &mut arena).unwrap();
    assert_eq!(arg, CastArg::String(0));
    assert_eq!(arena.len(), 1);
    assert_eq!(arena.buffer(0).as_slice(), b"hello");
}

#[test]
fn string_token_keeps_spaces_and_colons() {
    let mut arena = Arena::new();
    CastArg::new("s:x", &mut arena).unwrap();
    let arg = CastArg::new("s:a b:c", &mut arena).unwrap();
    assert_eq!(arg, CastArg::String(1));
    assert_eq!(arena.buffer(1).as_slice(), b"a b:c");
}

#[test]
fn number_token_is_its_value() {
    let mut arena = Arena::new();
    assert_eq!(CastArg::new("n:42", &mut arena), Ok(CastArg::Number(42)));
    assert_eq!(CastArg::new("n:+7", &mut arena), Ok(CastArg::Number(7)));
    assert_eq!(CastArg::new("n:0", &mut arena), Ok(CastArg::Number(0)));
    assert_eq!(arena.len(), 0);
}

#[test]
fn minus_one_is_all_ones() {
    let mut arena = Arena::new();
    assert_eq!(CastArg::new("n:-1", &mut arena), Ok(CastArg::Number(usize::MAX)));
    assert_eq!(CastArg::new("n:-2", &mut arena), Ok(CastArg::Number(usize::MAX - 1)));
}

#[test]
fn negative_numbers_at_the_edge_of_the_signed_range() {
    let mut arena = Arena::new();
    let min = format!("n:{}", isize::MIN);
    assert_eq!(CastArg::new(&min, &mut arena), Ok(CastArg::Number(isize::MIN as usize)));
    let below = format!("n:-{}", (isize::MAX as usize) + 2);
    assert_eq!(CastArg::new(&below, &mut arena), Err(ScxError::Parse));
}

#[test]
fn largest_word_and_one_past_it() {
    let mut arena = Arena::new();
    let max = format!("n:{}", usize::MAX);
    assert_eq!(CastArg::new(&max, &mut arena), Ok(CastArg::Number(usize::MAX)));
    let over = format!("n:{}0", usize::MAX);
    assert_eq!(CastArg::new(&over, &mut arena), Err(ScxError::Parse));
}

#[test]
fn short_tokens_are_badly_formed() {
    let mut arena = Arena::new();
    assert_eq!(CastArg::new("", &mut arena), Err(ScxError::ArgumentFormat));
    assert_eq!(CastArg::new("s", &mut arena), Err(ScxError::ArgumentFormat));
    assert_eq!(CastArg::new("s:", &mut arena), Err(ScxError::ArgumentFormat));
    assert_eq!(CastArg::new("n:", &mut arena), Err(ScxError::ArgumentFormat));
    assert_eq!(arena.len(), 0);
}

#[test]
fn unknown_hints_are_badly_formed() {
    let mut arena = Arena::new();
    assert_eq!(CastArg::new("x:1", &mut arena), Err(ScxError::ArgumentFormat));
    assert_eq!(CastArg::new("S:hello", &mut arena), Err(ScxError::ArgumentFormat));
    assert_eq!(CastArg::new("s-hello", &mut arena), Err(ScxError::ArgumentFormat));
    assert_eq!(CastArg::new("sx:hello", &mut arena), Err(ScxError::ArgumentFormat));
}

#[test]
fn non_numeric_number_is_a_parse_error() {
    let mut arena = Arena::new();
    assert_eq!(CastArg::new("n:abc", &mut arena), Err(ScxError::Parse));
    assert_eq!(CastArg::new("n:12a", &mut arena), Err(ScxError::Parse));
    assert_eq!(CastArg::new("n:-", &mut arena), Err(ScxError::Parse));
}

#[test]
fn words_of_arguments() {
    let addresses = vec![1000usize, 2000];
    assert_eq!(CastArg::String(1).get_usize(&addresses), 2000);
    assert_eq!(CastArg::Number(5).get_usize(&addresses), 5);
}

#[test]
fn hints_of_arguments() {
    assert_eq!(CastArg::String(0).get_type_hint_str(), "s");
    assert_eq!(CastArg::Number(0).get_type_hint_str(), "n");
    assert!(CastArg::is_type_hint("s:x"));
    assert!(CastArg::is_type_hint("n"));
    assert!(!CastArg::is_type_hint("q:x"));
    assert!(!CastArg::is_type_hint(""));
}

#[test]
fn decimal_and_word_parsing() {
    assert_eq!(parse_decimal(b"123"), Some(123));
    assert_eq!(parse_decimal(b"+123"), Some(123));
    assert_eq!(parse_decimal(b"-1"), None);
    assert_eq!(parse_decimal(b""), None);
    assert_eq!(parse_decimal(b"+"), None);
    assert_eq!(parse_word(b"-1"), Some(usize::MAX));
    assert_eq!(parse_word(b"-0"), Some(0));
    assert_eq!(parse_word(b"1x"), None);
}
