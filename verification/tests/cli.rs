use run_on_filechange::CliError;
use run_on_filechange::first_invalid;
use run_on_filechange::parse_args;

#[test]
fn no_arguments_is_usage_error() {
    let args: Vec<String> = vec![];
    assert_eq!(parse_args(&args).err(), Some(CliError::MissingCommand));
}

#[test]
fn command_without_directories_rejected() {
    let args = vec![String::from("true")];
    assert_eq!(parse_args(&args).err(), Some(CliError::NoDirectories));
}

#[test]
fn command_and_directories_accepted() {
    let args = vec![
        String::from("echo hi"),
        String::from("./tmpdir"),
        String::from("./src"),
    ];
    let config = match parse_args(&args) {
        Ok(c) => c,
        Err(_) => panic!("expected the arguments to be accepted"),
    };
    assert_eq!(config.command, "echo hi");
    assert_eq!(config.dirs, vec!["./tmpdir", "./src"]);
}

#[test]
fn first_missing_directory_found() {
    assert_eq!(first_invalid(&vec![true, false, true]), Some(1));
    assert_eq!(first_invalid(&vec![false]), Some(0));
    assert_eq!(first_invalid(&vec![true, true]), None);
    assert_eq!(first_invalid(&vec![]), None);
}
