//! Paths, shells and control characters.
use atuin_fullhistory::escape::Escapable;
use atuin_fullhistory::paths::{
    broken_symlink, config_dir, data_dir, git_dir, in_git_repo, join_path, logs_dir, path_dist,
    runtime_dir, search_dirs, System,
};
use atuin_fullhistory::shell::Shell;

#[test]
fn paths_are_joined() {
    assert_eq!(join_path(&System::this(), "/a", "b"), "/a/b");
    assert_eq!(join_path(&System::this(), "/a/", "b"), "/a/b");
    assert_eq!(join_path(&System::this(), "", "b"), "b");
    assert_eq!(join_path(&System::this(), "/a", "/b"), "/b");
    assert_eq!(join_path(&System::this(), "/a", ""), "/a/");
    for (a, b) in [("/a", "b"), ("a/", "b/c"), ("", ""), ("x", "/y"), ("/a", ""), ("/", "z")] {
        assert_eq!(join_path(&System::this(), a, b), std::path::Path::new(a).join(b).to_str().unwrap());
    }
}

#[test]
fn directories() {
    assert_eq!(config_dir(&System::this(), None, "/home/me"), "/home/me/.config/atuin");
    assert_eq!(config_dir(&System::this(), Some("/cfg"), "/home/me"), "/cfg/atuin");
    assert_eq!(data_dir(&System::this(), None, "/home/me"), "/home/me/.local/share/atuin");
    assert_eq!(data_dir(&System::this(), Some("/data"), "/home/me"), "/data/atuin");
    assert_eq!(runtime_dir(None, "/data/atuin"), "/data/atuin");
    assert_eq!(runtime_dir(Some("/run/user/1"), "/data/atuin"), "/run/user/1");
    assert_eq!(logs_dir(&System::this(), "/home/me"), "/home/me/.atuin/logs");
}

#[test]
fn distances_between_directories() {
    assert_eq!(path_dist(&System::this(), "/home/me", "/home/me"), 0);
    assert_eq!(path_dist(&System::this(), "/home/me", "/home/you"), 2);
    assert_eq!(path_dist(&System::this(), "/home", "/home/me/src"), 2);
    assert_eq!(path_dist(&System::this(), "/home/me/src", "/home"), 2);
    assert_eq!(path_dist(&System::this(), "/a", "b"), 3);
    assert_eq!(path_dist(&System::this(), "", "/a"), 2);
    assert_eq!(path_dist(&System::this(), "", ""), 0);
    // Slashes and dots that say nothing do not count.
    assert_eq!(path_dist(&System::this(), "/home//me/", "/home/./me"), 0);
    assert_eq!(path_dist(&System::this(), "./a", "a"), 3);
    assert_eq!(path_dist(&System::this(), "a/../b", "a/b"), 3);
}

#[test]
fn directories_to_look_for_a_repository() {
    assert_eq!(search_dirs(&System::this(), "/a/b"), vec!["/a/b", "/a"]);
    assert_eq!(search_dirs(&System::this(), "/a/b/"), vec!["/a/b/", "/a"]);
    assert_eq!(search_dirs(&System::this(), "a"), vec!["a"]);
    assert_eq!(search_dirs(&System::this(), "a/./b"), vec!["a/./b", "a"]);
    assert_eq!(search_dirs(&System::this(), "/"), Vec::<String>::new());
    assert_eq!(search_dirs(&System::this(), ""), Vec::<String>::new());
    for path in ["/a/b/c", "a/b", "./a", "..", "/..", "//a//b", "/a/.", ".", "x/./", "/./a"] {
        let mut expected = Vec::new();
        let mut dir = std::path::PathBuf::from(path);
        while dir.parent().is_some() {
            expected.push(dir.to_str().unwrap().to_string());
            dir.pop();
        }
        assert_eq!(search_dirs(&System::this(), path), expected, "{path}");
    }
}

#[test]
fn repository_of_a_path() {
    assert_eq!(git_dir(&System::this(), "/a"), "/a/.git");
    assert_eq!(in_git_repo(&System::this(), "/a/b/c", &vec![false, true]).as_deref(), Some("/a/b"));
    assert_eq!(in_git_repo(&System::this(), "/a/b/c", &vec![true, true]).as_deref(), Some("/a/b/c"));
    assert_eq!(in_git_repo(&System::this(), "/a/b/c", &vec![false, false, false]), None);
    assert_eq!(in_git_repo(&System::this(), "/", &vec![]), None);
}

#[test]
fn broken_links() {
    assert!(broken_symlink(true, false));
    assert!(!broken_symlink(true, true));
    assert!(!broken_symlink(false, false));
}

#[test]
fn control_characters_are_shown() {
    assert_eq!("a\tb\u{1}\u{7f}\u{0}".escape_control(), "a^Ib^A^?^@");
    assert_eq!("\u{1b}[31m".escape_control(), "^[[31m");
    assert_eq!("plain ü".to_string().escape_control(), "plain ü");
    assert_eq!("".escape_control(), "");
    let twice = "\u{1f}x".escape_control().escape_control();
    assert_eq!(twice, "^_x");
    // Control characters beyond ASCII stay.
    assert_eq!("\u{85}".escape_control(), "\u{85}");
}

#[test]
fn shells_by_name() {
    for name in ["sh", "bash", "fish", "zsh", "xonsh", "nu", "powershell"] {
        assert_eq!(Shell::from_string(name.to_string()).text(), name);
    }
    assert_eq!(Shell::from_string("csh".to_string()), Shell::Unknown);
    assert_eq!(Shell::Unknown.text(), "unknown");
    assert_eq!(Shell::from_env(Some(" ZSH\n")), Shell::Zsh);
    assert_eq!(Shell::from_env(None), Shell::Unknown);
    assert!(Shell::Bash.is_posixish() && Shell::Zsh.is_posixish() && Shell::Fish.is_posixish());
    assert!(!Shell::Sh.is_posixish() && !Shell::Nu.is_posixish());
}

#[test]
fn system_goes_by_its_separator() {
    assert_eq!(System::this().is_windows(), std::path::MAIN_SEPARATOR == '\\');
}
