use tge::cli::{clean_input_files, validate, Cli, CliError};
use vfs::{MemoryFS, VfsPath};

fn build_fake_fs() -> VfsPath {
    let fs: VfsPath = MemoryFS::new().into();
    let file = fs.join("existing_file").unwrap();
    file.create_file().unwrap();
    fs
}

/// Whether each cleaned input file of `cli` is a file in `fs`.
fn readable(cli: &Cli, fs: &VfsPath) -> Vec<bool> {
    clean_input_files(&cli.input_files)
        .iter()
        .map(|file| fs.join(file).is_ok_and(|path| path.is_file().unwrap_or(false)))
        .collect()
}

fn validate_in(cli: Cli, fs: &VfsPath) -> Result<Cli, CliError> {
    let answers = readable(&cli, fs);
    validate(cli, &answers)
}

#[test]
fn test_validate_returns_ok_when_all_good() {
    assert_eq!(
        true,
        validate_in(
            Cli {
                input_files: vec!["existing_file".to_string()],
                output_file: "something".to_string(),
            },
            &build_fake_fs()
        )
        .is_ok()
    );
}

#[test]
fn test_validate_returns_err_when_input_files_are_empty() {
    let result = validate_in(
        Cli {
            input_files: vec!["".to_string()],
            output_file: "something".to_string(),
        },
        &build_fake_fs(),
    );
    assert_eq!(true, result.is_err());
    assert_eq!(
        "You must provide at least one input file",
        result.err().unwrap().message()
    );
}

#[test]
fn test_validate_returns_err_when_input_file_does_not_exist() {
    let result = validate_in(
        Cli {
            input_files: vec!["non_existing".to_string()],
            output_file: "something".to_string(),
        },
        &build_fake_fs(),
    );
    assert_eq!(true, result.is_err());
    assert_eq!(
        "Some given input files cannot be read",
        result.err().unwrap().message()
    );
}

#[test]
fn test_validate_returns_err_when_output_file_is_empty() {
    let result = validate_in(
        Cli {
            input_files: vec!["existing_file".to_string()],
            output_file: "".to_string(),
        },
        &build_fake_fs(),
    );
    assert_eq!(true, result.is_err());
    assert_eq!(
        "Please provide a valid output file",
        result.err().unwrap().message()
    );
}

#[test]
fn validate_trims_names_and_drops_blank_inputs() {
    let cli = Cli {
        input_files: vec![
            "  a.mustache ".to_string(),
            "   ".to_string(),
            "\tb.mustache\n".to_string(),
        ],
        output_file: "  out.pot  ".to_string(),
    };
    let c = validate(cli, &vec![true, true]).ok().unwrap();
    assert_eq!(c.input_files, vec!["a.mustache".to_string(), "b.mustache".to_string()]);
    assert_eq!(c.output_file, "out.pot");
}

#[test]
fn validate_counts_missing_answers_as_unreadable() {
    let cli = Cli {
        input_files: vec!["a".to_string(), "b".to_string()],
        output_file: "out.pot".to_string(),
    };
    assert_eq!(validate(cli, &vec![true]).err(), Some(CliError::UnreadableInputFile));
}

#[test]
fn validate_reports_missing_inputs_before_blank_output() {
    let cli = Cli { input_files: vec![" ".to_string()], output_file: " ".to_string() };
    assert_eq!(validate(cli, &vec![]).err(), Some(CliError::NoInputFile));
    let cli = Cli { input_files: vec!["x".to_string()], output_file: " ".to_string() };
    assert_eq!(validate(cli, &vec![false]).err(), Some(CliError::UnreadableInputFile));
    let cli = Cli { input_files: vec!["x".to_string()], output_file: " ".to_string() };
    assert_eq!(validate(cli, &vec![true]).err(), Some(CliError::InvalidOutputFile));
}

#[test]
fn validate_is_idempotent_on_accepted_arguments() {
    let cli = Cli {
        input_files: vec![" one ".to_string(), "".to_string(), "two".to_string()],
        output_file: "\u{3000}out.pot ".to_string(),
    };
    let once = validate(cli, &vec![true, true]).ok().unwrap();
    let again = validate(
        Cli { input_files: once.input_files.clone(), output_file: once.output_file.clone() },
        &vec![true, true],
    )
    .ok()
    .unwrap();
    assert_eq!(once.input_files, again.input_files);
    assert_eq!(once.output_file, again.output_file);
    assert_eq!(again.output_file, "out.pot");
}

#[test]
fn clean_input_files_keeps_order() {
    let files = vec!["z".to_string(), " ".to_string(), " a".to_string()];
    assert_eq!(clean_input_files(&files), vec!["z".to_string(), "a".to_string()]);
}
