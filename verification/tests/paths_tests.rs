use dotfiles::config::{home_relative, replacetilde, strips_home};
use std::path::{Path, PathBuf};

fn std_relocate(file: &str, home: &str, dir: &str) -> Option<String> {
    let rest = Path::new(file).strip_prefix(home).ok()?;
    Some(PathBuf::from(dir).join(rest).to_str().unwrap().to_string())
}

const FILES: [&str; 18] = [
    "/home/u/.config/i3/config",
    "/home/u",
    "/home/u/",
    "/home/u/./a//b/.",
    "/home/uu/a",
    "/home//u/a",
    "/home/./u/a/",
    "./home/u/a",
    "home/u/a",
    "/",
    "",
    ".",
    "./",
    "/./x",
    "a/../b",
    "/home/u/../v",
    "//home/u/x//",
    "./a/.",
];

const HOMES: [&str; 9] = ["/home/u", "/home/u/", "/home/./u", "/", "", ".", "home/u", "./home", "/home/u/.."];

const DIRS: [&str; 4] = ["/tmp/d", "/tmp/d/", "", "rel"];

#[test]
fn home_relative_agrees_with_std_paths() {
    for f in FILES {
        for h in HOMES {
            let expect = std_relocate(f, h, "/tmp/d");
            assert_eq!(strips_home(f, h), expect.is_some(), "strips {:?} {:?}", f, h);
            for d in DIRS {
                if let Some(e) = std_relocate(f, h, d) {
                    assert_eq!(home_relative(f, h, d), e, "relocate {:?} {:?} {:?}", f, h, d);
                }
            }
        }
    }
}

#[test]
fn home_relative_example() {
    assert_eq!(
        home_relative("/home/u/.config/picom/picom.conf", "/home/u", "/backup/dotfiles"),
        "/backup/dotfiles/.config/picom/picom.conf"
    );
    assert!(!strips_home("/etc/passwd", "/home/u"));
}

#[test]
fn stripping_home_after_tilde_gives_the_rest() {
    for p in ["~/.config/i3/", "~", "~/", "~//a/./b/.", "~/a/../b"] {
        for home in ["/home/u", "/home/u/", "/", "h", "./h"] {
            let full = replacetilde(p.to_string(), home);
            let stripped = Path::new(&full).strip_prefix(home).unwrap();
            let after = Path::new(p).strip_prefix("~").unwrap();
            assert_eq!(stripped, after, "{:?} {:?}", p, home);
        }
    }
}
