use sel::cli::{Cli, ColorMode};
use std::path::PathBuf;

fn cli_of(args: &[&str]) -> Cli {
    Cli {
        args: args.iter().map(|a| a.to_string()).collect(),
        ..Default::default()
    }
}

#[test]
fn test_cli_with_selector() {
    let cli = cli_of(&["10-20", "file.txt"]);
    assert_eq!(cli.get_selector(), Some("10-20".to_string()));
    assert_eq!(cli.get_files().len(), 1);
    assert_eq!(PathBuf::from(&cli.get_files()[0]), PathBuf::from("file.txt"));
}

#[test]
fn test_cli_without_selector() {
    let cli = cli_of(&["file.txt"]);
    assert_eq!(cli.get_selector(), None);
    assert_eq!(cli.get_files().len(), 1);
    assert_eq!(PathBuf::from(&cli.get_files()[0]), PathBuf::from("file.txt"));
}

#[test]
fn test_cli_with_context() {
    let cli = Cli {
        context: Some(3),
        ..cli_of(&["42", "file.txt"])
    };
    assert_eq!(cli.context, Some(3));
    assert_eq!(cli.get_selector(), Some("42".to_string()));
    assert_eq!(cli.get_files().len(), 1);
}

#[test]
fn test_cli_regex_mode() {
    let cli = Cli {
        regex: Some("ERROR".to_string()),
        ..cli_of(&["log.txt"])
    };
    assert_eq!(cli.regex, Some("ERROR".to_string()));
    assert_eq!(cli.get_selector(), None);
    assert_eq!(cli.get_files().len(), 1);
    assert_eq!(PathBuf::from(&cli.get_files()[0]), PathBuf::from("log.txt"));
}

#[test]
fn test_cli_regex_multiple_files() {
    let cli = Cli {
        regex: Some("ERROR".to_string()),
        ..cli_of(&["log1.txt", "log2.txt"])
    };
    assert_eq!(cli.regex, Some("ERROR".to_string()));
    assert_eq!(cli.get_files().len(), 2);
}

#[test]
fn test_looks_like_selector() {
    let cli = cli_of(&["file.txt"]);
    assert!(cli.looks_like_selector("42"));
    assert!(cli.looks_like_selector("10-20"));
    assert!(cli.looks_like_selector("1,5,10-15"));
    assert!(cli.looks_like_selector("23:260"));
    assert!(!cli.looks_like_selector("file.txt"));
    assert!(!cli.looks_like_selector(""));
    assert!(!cli.looks_like_selector(":260"));
    assert!(!cli.looks_like_selector("23:"));
}

// Own checks.

#[test]
fn selector_like_edge_cases() {
    let cli = Cli::default();
    assert!(!cli.looks_like_selector("-"));
    assert!(!cli.looks_like_selector(",,"));
    assert!(cli.looks_like_selector("1,,2"));
    assert!(cli.looks_like_selector("1:2,3:4"));
    assert!(!cli.looks_like_selector("1:2,3:"));
    assert!(!cli.looks_like_selector("1:2:3"));
    assert!(!cli.looks_like_selector("1:-2"));
    assert!(cli.looks_like_selector("5-,7"));
    assert!(!cli.looks_like_selector("１"));
}

#[test]
fn files_fall_back_to_stdin() {
    assert_eq!(cli_of(&[]).get_files(), vec!["-".to_string()]);
    assert_eq!(cli_of(&["10-20"]).get_files(), vec!["-".to_string()]);
    assert_eq!(cli_of(&["10-20", "-"]).get_files(), vec!["-".to_string()]);
    assert_eq!(cli_of(&["a", "b"]).get_files(), vec!["a".to_string(), "b".to_string()]);
}

#[test]
fn validate_reports_flag_conflicts() {
    let invert = Cli {
        invert: true,
        ..cli_of(&["f.txt"])
    };
    assert!(matches!(invert.validate(), Err(sel::SelError::InvertWithoutRegex)));
    assert_eq!(
        invert.validate().unwrap_err().message(),
        "--invert-match requires --regex"
    );
    let no_target = Cli {
        char_context: Some(5),
        ..cli_of(&["2", "f.txt"])
    };
    assert!(matches!(
        no_target.validate(),
        Err(sel::SelError::CharContextWithoutTarget)
    ));
    let positional = Cli {
        char_context: Some(5),
        ..cli_of(&["2:3", "f.txt"])
    };
    assert!(positional.validate().is_ok());
    let with_regex = Cli {
        char_context: Some(5),
        invert: true,
        regex: Some("x".to_string()),
        ..cli_of(&["f.txt"])
    };
    assert!(with_regex.validate().is_ok());
    assert!(cli_of(&[]).validate().is_ok());
}

#[test]
fn color_mode_resolution() {
    let mut cli = Cli::default();
    assert_eq!(cli.color_mode(true), ColorMode::Always);
    assert_eq!(cli.color_mode(false), ColorMode::Never);
    cli.color = Some("always".to_string());
    assert_eq!(cli.color_mode(false), ColorMode::Always);
    cli.color = Some("never".to_string());
    assert_eq!(cli.color_mode(true), ColorMode::Never);
    cli.color = Some("auto".to_string());
    assert_eq!(cli.color_mode(true), ColorMode::Always);
    cli.color = Some("bogus".to_string());
    assert_eq!(cli.color_mode(true), ColorMode::Never);
    assert!(ColorMode::Always.should_colorize());
    assert!(!ColorMode::Never.should_colorize());
}

#[test]
fn filename_shown_for_several_inputs_or_on_request() {
    let cli = Cli::default();
    assert!(!cli.shows_filename(1));
    assert!(cli.shows_filename(2));
    let h = Cli {
        with_filename: true,
        ..Default::default()
    };
    assert!(h.shows_filename(1));
}

#[test]
fn output_dash_means_stdout() {
    let mut cli = Cli::default();
    assert_eq!(cli.output_file(), None);
    cli.output = Some("-".to_string());
    assert_eq!(cli.output_file(), None);
    cli.output = Some("out.txt".to_string());
    assert_eq!(cli.output_file(), Some("out.txt".to_string()));
}

#[test]
fn filenames_with_digits_are_not_selectors() {
    let cli = Cli::default();
    assert!(!cli.looks_like_selector("10-20.log"));
    assert!(!cli.looks_like_selector("23:notes"));
    assert_eq!(cli_of(&["10-20.log"]).get_selector(), None);
}
