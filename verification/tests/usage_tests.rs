use dotfiles::args::{parsearg, Arguments, Mode};
use dotfiles::usage::{choose_action, export, get, import, Action};

#[test]
fn general_help_names_the_program() {
    let a = Arguments::new("dotfiles".to_string());
    let text = get(&a);
    assert!(text.starts_with("Usage: dotfiles [options] <import|export> <directory>\n\nimport | "));
    assert!(text.ends_with("-v   | Enable verbose output."));
    assert_eq!(text, dotfiles::usage::default("dotfiles"));
}

#[test]
fn mode_help_texts() {
    let mut a = Arguments::new("p".to_string());
    a.mode = Mode::Import;
    assert_eq!(get(&a), "[Import help message]");
    a.mode = Mode::Export;
    assert_eq!(get(&a), "[Export help message]");
    assert_eq!(import(), "[Import help message]");
    assert_eq!(export(), "[Export help message]");
}

#[test]
fn actions() {
    let a = Arguments::new("p".to_string());
    assert!(choose_action(&a, 0) == Action::ShowHelp);
    assert!(choose_action(&a, 1) == Action::NoMode);
    let b = parsearg(&vec!["p".to_string(), "import".to_string(), "d".to_string()]).unwrap();
    assert!(choose_action(&b, 2) == Action::Import);
    let c = parsearg(&vec!["p".to_string(), "export".to_string(), "-h".to_string()]).unwrap();
    assert!(choose_action(&c, 2) == Action::Export);
    let d = parsearg(&vec!["p".to_string(), "-h".to_string(), "export".to_string()]).unwrap();
    assert!(choose_action(&d, 2) == Action::ShowHelp);
}
