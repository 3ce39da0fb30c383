use rs_deesser::command::{parse_arguments, sum_up, ArgumentError, Command, Options};

fn parse(arguments: &[&str]) -> Result<Command, ArgumentError> {
    parse_arguments(&arguments.iter().map(|a| a.to_string()).collect())
}

fn options(arguments: &[&str]) -> Options {
    match parse(arguments) {
        Ok(Command::Process(options)) => options,
        _ => panic!("expected something to process"),
    }
}

fn message(arguments: &[&str]) -> String {
    match parse(arguments) {
        Err(error) => error.message(),
        Ok(_) => panic!("expected an error"),
    }
}

#[test]
fn two_file_names_are_processed() {
    let plain = options(&["in.wav", "out.wav"]);
    assert_eq!(plain.input, "in.wav");
    assert_eq!(plain.output, "out.wav");
    assert!(!plain.bypass);
    assert!(!plain.quiet);
}

#[test]
fn options_may_stand_anywhere() {
    let mixed = options(&["--bypass", "in.wav", "-q", "out.wav"]);
    assert_eq!(mixed.input, "in.wav");
    assert_eq!(mixed.output, "out.wav");
    assert!(mixed.bypass);
    assert!(mixed.quiet);
    assert!(options(&["a", "b", "--quiet"]).quiet);
}

#[test]
fn requests_for_information_come_first() {
    assert!(matches!(parse(&["-h"]), Ok(Command::Help)));
    assert!(matches!(parse(&["a", "--help", "--nonsense"]), Ok(Command::Help)));
    assert!(matches!(parse(&["--bands", "-h"]), Ok(Command::ShowBands)));
    // What comes first decides.
    assert_eq!(message(&["--nonsense", "--help"]), "unknown option '--nonsense'");
}

#[test]
fn wrong_command_lines_are_rejected() {
    assert_eq!(message(&[]), "expected an input and an output file");
    assert_eq!(message(&["in.wav"]), "expected an input and an output file");
    assert_eq!(message(&["a", "b", "c"]), "expected exactly two file names");
    assert_eq!(message(&["a", "-x", "b"]), "unknown option '-x'");
    assert_eq!(message(&["-"]), "unknown option '-'");
    assert!(matches!(parse(&["a"]), Err(ArgumentError::MissingFiles)));
    assert!(matches!(parse(&["a", "b", "c"]), Err(ArgumentError::TooManyFiles)));
    assert!(matches!(parse(&["-x"]), Err(ArgumentError::UnknownOption(option)) if option == "-x"));
}

#[test]
fn an_empty_argument_is_a_file_name() {
    let empty = options(&["", "out.wav"]);
    assert_eq!(empty.input, "");
}

#[test]
fn a_run_is_summed_up() {
    assert_eq!(sum_up(None::<u8>, 100, 100), Ok((100, None)));
    assert_eq!(sum_up(Some(7u8), 100, 100), Err(7));
    let warning = "warning: header announced 100 samples, wrote 99".to_string();
    assert_eq!(sum_up(None::<u8>, 100, 99), Ok((99, Some(warning))));
}
