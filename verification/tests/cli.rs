use regatta::cli::{CliArgs, CliError};

#[test]
fn new_from_keeps_the_values() {
    let args = CliArgs::new_from("notes.txt", "lorem", "0.1.0").unwrap();
    assert_eq!(args.path(), "notes.txt");
    assert_eq!(args.pattern(), "lorem");
    assert_eq!(args.version(), "0.1.0");
}

#[test]
fn new_from_refuses_an_empty_pattern() {
    assert_eq!(CliArgs::new_from("notes.txt", "", "0.1.0"), Err(CliError::InvalidPattern));
}

#[test]
fn new_from_accepts_an_empty_path() {
    let args = CliArgs::new_from("", "x", "1.2.3").unwrap();
    assert_eq!(args.path(), "");
    assert_eq!(args.pattern(), "x");
}

#[test]
fn invalid_pattern_message() {
    assert_eq!(CliError::InvalidPattern.message(), "Invalid pattern.");
}

#[test]
fn equal_values_give_equal_args() {
    let a = CliArgs::new_from("p", "q", "v").unwrap();
    let b = CliArgs::new_from("p", "q", "v").unwrap();
    let c = CliArgs::new_from("p", "r", "v").unwrap();
    assert_eq!(a, b);
    assert_ne!(a, c);
}
