use lucid::error::LucidError;
use lucid::output::OutputHandler;
use lucid::verbosity::VerbosityLevel;

#[test]
fn test_verbosity_level() {
    assert!(VerbosityLevel::Normal > VerbosityLevel::Quiet);
    assert!(VerbosityLevel::Verbose > VerbosityLevel::Normal);
    assert!(VerbosityLevel::Verbose > VerbosityLevel::Quiet);
}

#[test]
fn test_verbosity_order_both_ways() {
    assert!(VerbosityLevel::Quiet < VerbosityLevel::Normal);
    assert!(VerbosityLevel::Normal < VerbosityLevel::Verbose);
    assert!(VerbosityLevel::Quiet < VerbosityLevel::Verbose);
    assert!(VerbosityLevel::Normal == VerbosityLevel::Normal);
    assert!(!(VerbosityLevel::Verbose < VerbosityLevel::Quiet));
    assert_eq!(0, VerbosityLevel::Quiet.rank());
    assert_eq!(1, VerbosityLevel::Normal.rank());
    assert_eq!(2, VerbosityLevel::Verbose.rank());
}

#[test]
fn test_error_messages() {
    assert_eq!(
        "Could not parse 'duration' argument",
        LucidError::DurationParseError.message()
    );
    assert_eq!("Duration can not be negative", LucidError::DurationNegative.message());
    assert_eq!("Failed to daemonize itself", LucidError::FailedToDaemonize.message());
}

#[test]
fn test_output_handler_runs_at_every_level() {
    let mut quiet = OutputHandler::new(String::from("lucid"), VerbosityLevel::Quiet, false);
    quiet.print("dropped by the filter");
    quiet.print_verbose("dropped by the filter");

    let mut normal = OutputHandler::new(String::from("lucid"), VerbosityLevel::Normal, true);
    normal.print("one line to the secondary stream");
    normal.print_verbose("dropped by the filter");

    let mut verbose = OutputHandler::new(String::from("lucid"), VerbosityLevel::Verbose, true);
    verbose.print("one line to the secondary stream");
    verbose.print_verbose("and one more");
}
