use dotfiles::config::{
    config_lines, default_config, has_tilde_prefix, missing_argument_line, parse_commands,
    replacetilde, Command, ConfigError,
};

fn lines(v: &[&[&str]]) -> Vec<Vec<String>> {
    v.iter().map(|l| l.iter().map(|p| p.to_string()).collect()).collect()
}

#[test]
fn config_lines_skips_comments_and_blank_lines() {
    let got = config_lines("# header\n\ndiradd ~/a/ # note\nfileadd ~/b\n#x\n");
    assert_eq!(got, lines(&[&["diradd", "~/a/"], &["fileadd", "~/b"]]));
}

#[test]
fn config_lines_keeps_empty_phrases() {
    // a line that starts with a space gives an empty first phrase
    let got = config_lines(" diradd  x");
    assert_eq!(got, lines(&[&["", "diradd", "", "x"]]));
}

#[test]
fn config_lines_concat_law() {
    let a = "diradd ~/a\n# c";
    let b = "fileadd ~/b # d\n\nx y";
    let joined = format!("{}\n{}", a, b);
    let mut expect = config_lines(a);
    expect.extend(config_lines(b));
    assert_eq!(config_lines(&joined), expect);
}

#[test]
fn default_config_parses_into_five_commands() {
    let text = default_config();
    assert!(text.starts_with("# An example config file."));
    let ls = config_lines(&text);
    assert_eq!(ls.len(), 5);
    assert_eq!(missing_argument_line(&ls), None);
    let (cmds, err) = parse_commands(&ls);
    assert!(err.is_none());
    assert_eq!(cmds.len(), 5);
    match &cmds[3] {
        Command::FileAdd(p) => assert_eq!(p, "~/.config/picom/picom.conf"),
        _ => panic!("expected fileadd"),
    }
    match &cmds[0] {
        Command::DirAdd(p) => assert_eq!(p, "~/.config/gtk-2.0/"),
        _ => panic!("expected diradd"),
    }
}

#[test]
fn unknown_command_stops_reading() {
    let ls = lines(&[&["fileadd", "a"], &["copy", "b"], &["diradd", "c"]]);
    let (cmds, err) = parse_commands(&ls);
    assert_eq!(cmds.len(), 1);
    match err {
        Some(ConfigError::UnknownCommand(p)) => assert_eq!(p, "copy"),
        _ => panic!("expected an unknown command"),
    }
}

#[test]
fn too_many_arguments_gives_command_then_error() {
    let ls = lines(&[&["diradd", "a", "b"], &["fileadd", "c"]]);
    let (cmds, err) = parse_commands(&ls);
    assert_eq!(cmds.len(), 1);
    match &cmds[0] {
        Command::DirAdd(p) => assert_eq!(p, "a"),
        _ => panic!("expected diradd"),
    }
    match err {
        Some(ConfigError::TooManyArguments(l)) => assert_eq!(l, "diradd a b"),
        _ => panic!("expected too many arguments"),
    }
}

#[test]
fn missing_argument_is_found() {
    let ls = lines(&[&["fileadd", "a"], &["diradd"], &["bogus"]]);
    assert_eq!(missing_argument_line(&ls), Some(1));
    let ls = lines(&[&["bogus"], &["diradd"]]);
    assert_eq!(missing_argument_line(&ls), None);
    let ls = lines(&[&[]]);
    assert_eq!(missing_argument_line(&ls), Some(0));
}

#[test]
fn tilde_prefix() {
    assert!(has_tilde_prefix("~"));
    assert!(has_tilde_prefix("~/x"));
    assert!(!has_tilde_prefix("~x"));
    assert!(!has_tilde_prefix("./~/x"));
    assert!(!has_tilde_prefix(""));
}

#[test]
fn replacetilde_joins_home_and_rest() {
    assert_eq!(replacetilde("~/.config/i3/".to_string(), "/home/u"), "/home/u/.config/i3");
    assert_eq!(replacetilde("~//a/./b/./".to_string(), "/home/u/"), "/home/u/a/./b");
    assert_eq!(replacetilde("~".to_string(), "/home/u"), "/home/u/");
    assert_eq!(replacetilde("~/x".to_string(), ""), "x");
}

#[test]
fn replacetilde_matches_std_paths() {
    for (p, home) in [("~/.config/gtk-2.0/", "/home/u"), ("~/./a//b/.", "/h"), ("~", "/h"), ("~/", "/h/")] {
        let rest = std::path::Path::new(p).strip_prefix("~").unwrap();
        let mut expect = std::path::PathBuf::from(home);
        expect.push(rest);
        assert_eq!(replacetilde(p.to_string(), home), expect.to_str().unwrap());
    }
}

#[test]
fn config_lines_shape_law() {
    let text = "a b#c #d e\n #x\n\n#y\nfileadd ~/f  \n";
    let ls = config_lines(text);
    assert_eq!(ls, lines(&[&["a", "b#c"], &[""], &["fileadd", "~/f", "", ""]]));
    for l in &ls {
        assert!(!l.is_empty());
        for p in l {
            assert!(!p.contains(' ') && !p.contains('\n') && !p.starts_with('#'));
        }
    }
}

#[test]
fn skipped_lines_and_trailing_comments_change_nothing() {
    let plain = config_lines("diradd ~/a\nfileadd ~/b");
    let noisy = config_lines("\n# top\ndiradd ~/a #note\n\n#mid\nfileadd ~/b # more\n#end");
    assert_eq!(plain, noisy);
}
