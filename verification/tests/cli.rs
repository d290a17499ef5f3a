use ezark::args::{Args, ArgsError};

fn strings(words: &[&str]) -> Vec<String> {
    words.iter().map(|w| w.to_string()).collect()
}

#[test]
fn args_new_starts_empty() {
    let a = Args::new();
    assert!(!a.make && !a.extract && !a.verbose && !a.help && !a.version && !a.inspect);
    assert!(a.archiveName.is_empty());
    assert!(a.archivePath.is_empty());
    assert!(a.extractPath.is_empty());
    assert!(a.elements.is_empty());
}

#[test]
fn args_parse_make_with_elements() {
    let a = Args::parse(strings(&["-m", "out.ez", "one", "two"])).unwrap();
    assert!(a.make);
    assert_eq!(a.archiveName, "out.ez");
    assert_eq!(a.elements, strings(&["one", "two"]));
    assert_eq!(a.extractPath, ".");
    assert!(!a.extract && !a.verbose && !a.help && !a.version && !a.inspect);
}

#[test]
fn args_parse_long_flags() {
    let a = Args::parse(strings(&["--make", "ar", "--verbose", "x"])).unwrap();
    assert!(a.make && a.verbose);
    assert_eq!(a.archiveName, "ar");
    assert_eq!(a.elements, strings(&["x"]));
}

#[test]
fn args_parse_extract_with_destination() {
    let a = Args::parse(strings(&["-e", "ar.ez", "dest"])).unwrap();
    assert!(a.extract);
    assert_eq!(a.archivePath, "ar.ez");
    assert_eq!(a.extractPath, "dest");
    assert!(a.elements.is_empty());
}

#[test]
fn args_parse_extract_defaults_to_current_directory() {
    let a = Args::parse(strings(&["--extract", "ar.ez"])).unwrap();
    assert!(a.extract);
    assert_eq!(a.archivePath, "ar.ez");
    assert_eq!(a.extractPath, ".");
}

#[test]
fn args_parse_inspect_help_version() {
    let a = Args::parse(strings(&["-i", "ar.ez"])).unwrap();
    assert!(a.inspect);
    assert_eq!(a.archivePath, "ar.ez");
    let h = Args::parse(strings(&["-h"])).unwrap();
    assert!(h.help);
    let v = Args::parse(strings(&["-V"])).unwrap();
    assert!(v.version);
}

#[test]
fn args_make_without_name_fails() {
    let e = Args::parse(strings(&["-m"])).unwrap_err();
    assert!(matches!(e, ArgsError::ExpectedArchiveName));
}

#[test]
fn args_extract_without_archive_fails() {
    let e = Args::parse(strings(&["x", "--extract"])).unwrap_err();
    assert!(matches!(e, ArgsError::ExpectedExtractionPath));
}

#[test]
fn args_inspect_without_archive_fails() {
    let e = Args::parse(strings(&["--inspect"])).unwrap_err();
    assert!(matches!(e, ArgsError::ExpectedInspectPath));
}
