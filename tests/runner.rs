use cracken::error::CrackenError;
use cracken::runner::{self, after_write, parse_command_line, WriteFailure, parse_number, Subcommand, GEN_CUSTOM_CHARSET, GEN_MINLEN, GEN_STATS};

#[test]
fn test_run_generate_smoke() {
    for args in vec![vec!["cracken", "generate", "?d"], vec!["cracken", "?d"]] {
        assert!(runner::run(Some(args)).is_ok());
    }
}

#[test]
fn test_run_custom_charset() {
    let args = Some(vec!["cracken", "-c=abcdef0123456789", "?1"]);
    assert!(runner::run(args).is_ok());
}

#[test]
fn test_run_stats() {
    let args = Some(vec!["cracken", "-s", "?d?s?u?l?a?b"]);
    assert!(runner::run(args).is_ok());
}

#[test]
fn test_run_bad_args() {
    let args = Some(vec!["cracken", "-m", "2", "?d"]);
    assert!(runner::run(args).is_err());
}

#[test]
fn test_run_bad_args2() {
    let args = Some(vec!["cracken", "?x"]);
    assert!(runner::run(args).is_err());
}

#[test]
fn test_run_bad_args3() {
    let args = Some(vec!["cracken", "-x", "5", "?d"]);
    assert!(runner::run(args).is_err());
}

#[test]
fn run_errors_name_the_cause() {
    assert_eq!(
        runner::run(Some(vec!["cracken", "-m", "2", "?d"])).unwrap_err(),
        CrackenError::InvalidMinLen
    );
    assert_eq!(runner::run(Some(vec!["cracken", "?x"])).unwrap_err(), CrackenError::InvalidMask);
    assert_eq!(
        runner::run(Some(vec!["cracken", "-m", "two", "?d"])).unwrap_err(),
        CrackenError::InvalidArguments
    );
    assert_eq!(
        runner::run(Some(vec!["cracken", "--bogus", "?d"])).unwrap_err(),
        CrackenError::InvalidArguments
    );
    assert_eq!(
        runner::run(Some(vec!["cracken", "-w", "words.txt", "?w1"])).unwrap_err(),
        CrackenError::NeedsFiles
    );
    assert_eq!(runner::run(None).unwrap_err(), CrackenError::InvalidArguments);
    assert_eq!(
        runner::run(Some(vec!["cracken", "-x", "5", "?d"])).unwrap_err(),
        CrackenError::InvalidMaxLen
    );
    let many: Vec<&str> = vec!["cracken", "-c", "a", "-c", "a", "-c", "a", "-c", "a", "-c", "a", "-c", "a",
        "-c", "a", "-c", "a", "-c", "a", "-c", "a", "?1"];
    assert_eq!(runner::run(Some(many)).unwrap_err(), CrackenError::InvalidArguments);
    assert_eq!(runner::run(Some(vec!["cracken"])).unwrap_err(), CrackenError::InvalidArguments);
}

#[test]
fn command_line_parsing() {
    let p = parse_command_line(&vec!["cracken", "-c", "ab", "--custom-charset=cd", "-m2", "-s", "?1?2"]).unwrap();
    assert_eq!(p.subcommand, Subcommand::Generate);
    assert_eq!(p.values_of(GEN_CUSTOM_CHARSET), vec!["ab".to_string(), "cd".to_string()]);
    assert_eq!(p.value_of(GEN_MINLEN), Some("2".to_string()));
    assert!(p.is_present(GEN_STATS));
    assert_eq!(p.positionals, vec!["?1?2".to_string()]);
    let e = parse_command_line(&vec!["cracken", "entropy", "-f", "v.txt", "pwd"]).unwrap();
    assert_eq!(e.subcommand, Subcommand::Entropy);
    assert!(parse_command_line(&vec!["cracken", "-m"]).is_err());
    assert!(parse_command_line(&vec!["cracken", "a", "b"]).is_err());
    assert!(parse_command_line(&vec!["cracken", "-s=1", "?d"]).is_err());
}

#[test]
fn write_outcomes() {
    assert!(after_write(Ok(())).is_none());
    assert_eq!(after_write(Err(WriteFailure::BrokenPipe)), Some(Ok(())));
    assert_eq!(after_write(Err(WriteFailure::Other)), Some(Err(CrackenError::OutputFailed)));
}

#[test]
fn number_parsing() {
    assert_eq!(parse_number("0"), Some(0));
    assert_eq!(parse_number("512"), Some(512));
    assert_eq!(parse_number(""), None);
    assert_eq!(parse_number("1a"), None);
    assert_eq!(parse_number("99999999999999999999999"), None);
}
