use bool_algebra::arguments::{eq_ignore_case, parse_ident_states, AstPrintMode, StatesError, ASK_ABOVE};

fn words(list: &[&str]) -> Vec<String> {
    list.iter().map(|w| w.to_string()).collect()
}

#[test]
fn test_states_single_binary() {
    assert_eq!(parse_ident_states(&words(&["101"])), Ok(5));
    assert_eq!(parse_ident_states(&words(&["0"])), Ok(0));
    assert_eq!(parse_ident_states(&words(&["1"])), Ok(1));
    assert_eq!(parse_ident_states(&words(&["0010"])), Ok(2));
    assert_eq!(parse_ident_states(&words(&["11111111"])), Ok(255));
}

#[test]
fn test_states_single_word() {
    assert_eq!(parse_ident_states(&words(&["true"])), Ok(1));
    assert_eq!(parse_ident_states(&words(&["TRUE"])), Ok(1));
    assert_eq!(parse_ident_states(&words(&["False"])), Ok(0));
}

#[test]
fn test_states_single_decimal() {
    assert_eq!(parse_ident_states(&words(&["12"])), Ok(12));
    assert_eq!(parse_ident_states(&words(&["102"])), Ok(102));
    assert_eq!(parse_ident_states(&words(&["007"])), Ok(7));
    assert_eq!(parse_ident_states(&words(&["4294967295"])), Ok(4294967295));
}

#[test]
fn test_states_single_invalid() {
    assert_eq!(
        parse_ident_states(&words(&["2x"])),
        Err(StatesError::Invalid(
            "Invalid input: 2x\nEither must be a boolean (true|false|0|1) or a binary string (010101) or number (uint)"
                .to_string()
        ))
    );
    assert!(matches!(parse_ident_states(&words(&["-1"])), Err(StatesError::Invalid(_))));
    assert!(matches!(parse_ident_states(&words(&["+1"])), Err(StatesError::Invalid(_))));
    assert!(matches!(parse_ident_states(&words(&["yes"])), Err(StatesError::Invalid(_))));
    assert!(matches!(parse_ident_states(&words(&["tru"])), Err(StatesError::Invalid(_))));
}

#[test]
fn test_states_single_unreadable() {
    assert_eq!(parse_ident_states(&words(&[""])), Err(StatesError::Unreadable));
    let ones = "1".repeat(200);
    assert_eq!(parse_ident_states(&words(&[&ones])), Err(StatesError::Unreadable));
    let nines = "9".repeat(60);
    assert_eq!(parse_ident_states(&words(&[&nines])), Err(StatesError::Unreadable));
    assert_eq!(parse_ident_states(&words(&["١٢"])), Err(StatesError::Unreadable));
    assert_eq!(parse_ident_states(&words(&["1²"])), Err(StatesError::Unreadable));
}

#[test]
fn test_states_single_largest() {
    let largest = usize::MAX.to_string();
    assert_eq!(parse_ident_states(&words(&[&largest])), Ok(usize::MAX));
    let ones = "1".repeat(usize::BITS as usize);
    assert_eq!(parse_ident_states(&words(&[&ones])), Ok(usize::MAX));
    let too_long = "1".repeat(usize::BITS as usize + 1);
    assert_eq!(parse_ident_states(&words(&[&too_long])), Err(StatesError::Unreadable));
    let padded = format!("0{}", ones);
    assert_eq!(parse_ident_states(&words(&[&padded])), Ok(usize::MAX));
}

#[test]
fn test_states_several() {
    assert_eq!(parse_ident_states(&words(&["true", "0", "1"])), Ok(5));
    assert_eq!(parse_ident_states(&words(&["True", "FALSE"])), Ok(1));
    assert_eq!(parse_ident_states(&words(&["0", "1"])), Ok(2));
    assert_eq!(parse_ident_states(&words(&["0", "0", "0"])), Ok(0));
    assert_eq!(parse_ident_states(&words(&[])), Ok(0));
}

#[test]
fn test_states_several_invalid() {
    assert_eq!(
        parse_ident_states(&words(&["1", "x", "y"])),
        Err(StatesError::Invalid(
            "Invalid input: x at index 1\nEither must be a boolean (true|false|0|1)".to_string()
        ))
    );
    assert_eq!(
        parse_ident_states(&words(&["10", "1"])),
        Err(StatesError::Invalid(
            "Invalid input: 10 at index 0\nEither must be a boolean (true|false|0|1)".to_string()
        ))
    );
    let mut many = vec!["0"; 12];
    many[11] = "2";
    assert_eq!(
        parse_ident_states(&words(&many)),
        Err(StatesError::Invalid(
            "Invalid input: 2 at index 11\nEither must be a boolean (true|false|0|1)".to_string()
        ))
    );
}

#[test]
fn test_states_several_beyond_the_last_bit() {
    let bits = usize::BITS as usize;
    let mut many = vec!["0"; bits + 2];
    assert_eq!(parse_ident_states(&words(&many)), Ok(0));
    many[bits - 1] = "1";
    assert_eq!(parse_ident_states(&words(&many)), Ok(1 << (bits - 1)));
    many[bits] = "true";
    assert_eq!(parse_ident_states(&words(&many)), Err(StatesError::Unreadable));
    many[bits + 1] = "x";
    assert_eq!(parse_ident_states(&words(&many)), Err(StatesError::Unreadable));
    many[0] = "x";
    assert!(matches!(parse_ident_states(&words(&many)), Err(StatesError::Invalid(_))));
}

#[test]
fn test_states_all_bits() {
    let bits = usize::BITS as usize;
    let many = vec!["1"; bits];
    assert_eq!(parse_ident_states(&words(&many)), Ok(usize::MAX));
}

#[test]
fn test_eq_ignore_case() {
    assert!(eq_ignore_case("true", "true"));
    assert!(eq_ignore_case("TrUe", "true"));
    assert!(eq_ignore_case("true", "TRUE"));
    assert!(eq_ignore_case("", ""));
    assert!(!eq_ignore_case("tru", "true"));
    assert!(!eq_ignore_case("truee", "true"));
    assert!(!eq_ignore_case("trux", "true"));
    assert!(!eq_ignore_case("[", "{"));
    assert!(!eq_ignore_case("@", "`"));
    assert!(!eq_ignore_case("É", "é"));
    assert!(eq_ignore_case("é1", "é1"));
    for word in ["true", "TRUE", "fAlSe", "@[`{", "Zz", "aZ", "0", "é"] {
        for other in ["true", "false", "`{@[", "zZ", "Az", "1", "É"] {
            assert_eq!(eq_ignore_case(word, other), word.eq_ignore_ascii_case(other));
        }
    }
}

#[test]
fn test_print_mode_from_flags() {
    assert_eq!(AstPrintMode::from(false, false), AstPrintMode::Default);
    assert_eq!(AstPrintMode::from(true, false), AstPrintMode::Pretty);
    assert_eq!(AstPrintMode::from(false, true), AstPrintMode::Extended);
    assert_eq!(AstPrintMode::from(true, true), AstPrintMode::PrettyExtended);
}

#[test]
fn test_print_mode_asks_first() {
    assert_eq!(ASK_ABOVE, 10);
    assert!(!AstPrintMode::Default.asks_first(10));
    assert!(AstPrintMode::Default.asks_first(11));
    assert!(AstPrintMode::Extended.asks_first(11));
    assert!(!AstPrintMode::Extended.asks_first(0));
    assert!(!AstPrintMode::Pretty.asks_first(1000));
    assert!(!AstPrintMode::PrettyExtended.asks_first(1000));
}

#[test]
fn test_print_mode_after_answer() {
    assert_eq!(AstPrintMode::Default.after_answer("y"), AstPrintMode::Pretty);
    assert_eq!(AstPrintMode::Extended.after_answer("y"), AstPrintMode::PrettyExtended);
    assert_eq!(AstPrintMode::Pretty.after_answer("y"), AstPrintMode::Pretty);
    assert_eq!(AstPrintMode::PrettyExtended.after_answer("y"), AstPrintMode::PrettyExtended);
    assert_eq!(AstPrintMode::Default.after_answer("n"), AstPrintMode::Default);
    assert_eq!(AstPrintMode::Extended.after_answer("n"), AstPrintMode::Extended);
    assert_eq!(AstPrintMode::Default.after_answer("yes"), AstPrintMode::Default);
    assert_eq!(AstPrintMode::Default.after_answer(""), AstPrintMode::Default);
}
