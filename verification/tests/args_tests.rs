use dotfiles::args::{classify_arg, parsearg, verbosity_overflows, ArgError, Arguments, Mode, Verbosity};

fn args(v: &[&str]) -> Vec<String> {
    v.iter().map(|s| s.to_string()).collect()
}

#[test]
fn new_arguments_are_unset() {
    let a = Arguments::new("prog".to_string());
    assert_eq!(a.name, "prog");
    assert!(a.mode == Mode::Unset);
    assert_eq!(a.directory, "");
    assert!(!a.git && !a.help && !a.tar);
    assert!(a.verbosity == Verbosity::Info);
}

#[test]
fn import_with_directory() {
    let a = parsearg(&args(&["prog", "-g", "import", "/tmp/d"])).unwrap();
    assert!(a.mode == Mode::Import);
    assert_eq!(a.directory, "/tmp/d");
    assert!(a.git);
    assert!(!a.tar);
}

#[test]
fn cluster_of_short_options() {
    let a = parsearg(&args(&["prog", "-agv"])).unwrap();
    assert!(a.tar && a.git);
    assert!(a.verbosity == Verbosity::Debug);
    assert!(a.mode == Mode::Unset);
    let a = parsearg(&args(&["prog", "-vv"])).unwrap();
    assert!(a.verbosity == Verbosity::Trace);
    let a = parsearg(&args(&["prog", "-?"])).unwrap();
    assert!(a.help);
}

#[test]
fn verbose_options_stay_in_effect() {
    // an argument without verbose options leaves the level as it was
    let a = parsearg(&args(&["prog", "-v", "--git"])).unwrap();
    assert!(a.verbosity == Verbosity::Debug);
    let a = parsearg(&args(&["dotty", "-v", "import", "d"])).unwrap();
    assert!(a.verbosity == Verbosity::Debug);
    assert!(a.mode == Mode::Import);
    assert_eq!(a.directory, "d");
    // each argument with verbose options sets the level from its own count
    let a = parsearg(&args(&["prog", "-v", "-v"])).unwrap();
    assert!(a.verbosity == Verbosity::Debug);
    let a = parsearg(&args(&["prog", "-vv", "-v"])).unwrap();
    assert!(a.verbosity == Verbosity::Debug);
    let a = parsearg(&args(&["prog", "-v", "-vv", "-g"])).unwrap();
    assert!(a.verbosity == Verbosity::Trace);
    let a = parsearg(&args(&["prog", "-g"])).unwrap();
    assert!(a.verbosity == Verbosity::Info);
}

#[test]
fn long_and_short_options_agree() {
    for (l, s) in [("--git", "-g"), ("--help", "-h"), ("--verbose", "-v")] {
        let a = format!("{:?}", classify_arg(&l.to_string()));
        let b = format!("{:?}", classify_arg(&s.to_string()));
        assert_eq!(a, b);
    }
}

#[test]
fn unknown_arguments_fail() {
    match parsearg(&args(&["prog", "-x"])) {
        Err(ArgError::FailedToParse(s)) => assert_eq!(s, "-x"),
        _ => panic!("expected a failure"),
    }
    match parsearg(&args(&["prog", "--tar"])) {
        Err(ArgError::FailedToParse(s)) => assert_eq!(s, "--tar"),
        _ => panic!("expected a failure"),
    }
    match parsearg(&args(&["prog", "dir"])) {
        Err(ArgError::FailedToParse(s)) => assert_eq!(s, "dir"),
        _ => panic!("expected a failure"),
    }
    match parsearg(&args(&["prog", "-g-"])) {
        Err(ArgError::FailedToParse(s)) => assert_eq!(s, "-g-"),
        _ => panic!("expected a failure"),
    }
}

#[test]
fn second_dash_is_an_error() {
    assert_eq!(format!("{:?}", classify_arg(&"-a-g".to_string())), "[Tar, Error(\"-a-g\"), Git]");
    assert_eq!(format!("{:?}", classify_arg(&"-".to_string())), "[]");
}

#[test]
fn directory_after_mode_even_if_option_like() {
    let a = parsearg(&args(&["prog", "export", "-g"])).unwrap();
    assert!(a.mode == Mode::Export);
    assert_eq!(a.directory, "-g");
    assert!(!a.git);
}

#[test]
fn verbosity_overflow_is_detected() {
    let many = format!("-{}", "v".repeat(128));
    assert!(verbosity_overflows(&args(&["prog", &many])));
    let enough = format!("-{}", "v".repeat(127));
    assert!(!verbosity_overflows(&args(&["prog", &enough])));
    let a = parsearg(&args(&["prog", &enough])).unwrap();
    assert!(a.verbosity == Verbosity::Trace);
}
