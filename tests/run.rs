use confible::config::{expand_home, resolve_target, AppendConfig, ResolveError};
use confible::run::{after_command, is_white_char, split_command, CommandOutcome, Step, Synchronizer};

#[test]
fn failing_command_aborts_the_run() {
    let words = split_command("false");
    assert_eq!(words, vec!["false".to_string()]);
    assert_eq!(after_command(CommandOutcome::Exited { success: false }), Step::Abort);
}

#[test]
fn successful_or_unstartable_command_continues() {
    assert_eq!(after_command(CommandOutcome::Exited { success: true }), Step::Continue);
    assert_eq!(after_command(CommandOutcome::SpawnFailed), Step::Continue);
}

#[test]
fn splits_commands_on_whitespace() {
    assert_eq!(
        split_command("  ls -la\t/tmp \n"),
        vec!["ls".to_string(), "-la".to_string(), "/tmp".to_string()]
    );
    assert_eq!(split_command("echo \"a b\""), vec!["echo", "\"a", "b\""]);
    assert!(split_command("").is_empty());
    assert!(split_command(" \t ").is_empty());
    assert_eq!(split_command("a\u{3000}b"), vec!["a", "b"]);
}

#[test]
fn whitespace_follows_std() {
    for c in ['\t', '\n', ' ', '\u{85}', '\u{a0}', '\u{2003}', '\u{3000}', 'a', '_', '\u{200b}'] {
        assert_eq!(is_white_char(c), c.is_whitespace(), "{:?}", c);
    }
}

#[test]
fn duplicate_target_is_refused() {
    let mut s = Synchronizer::new();
    assert!(s.claim("/tmp/a").is_ok());
    assert!(s.claim("/tmp/b").is_ok());
    let err = s.claim("/tmp/a").unwrap_err();
    assert_eq!(err.target, "/tmp/a");
    assert!(s.is_handled("/tmp/b"));
    assert!(!s.is_handled("/tmp/c"));
}

#[test]
fn tilde_expands_to_home() {
    assert_eq!(expand_home("~/.bashrc", "/home/user"), "/home/user/.bashrc");
    assert_eq!(expand_home("~", "/home/user"), "/home/user");
    assert_eq!(expand_home("~~x", "/h"), "/h~x");
    assert_eq!(expand_home("/etc/~x", "/h"), "/etc/~x");
    assert_eq!(expand_home("", "/h"), "");
}

#[test]
fn plain_target_resolves_to_itself() {
    assert_eq!(resolve_target("/etc/profile"), Ok("/etc/profile".to_string()));
}

#[test]
fn tilde_target_uses_home_directory() {
    match resolve_target("~/.bashrc") {
        Ok(p) => {
            assert!(!p.starts_with('~'));
            assert!(p.ends_with("/.bashrc"));
        }
        Err(e) => assert_eq!(e, ResolveError::NoHomeDir),
    }
}

#[test]
fn sync_config_writes_once_per_target() {
    let cfg = AppendConfig {
        target: "/tmp/x".to_string(),
        comment: "#".to_string(),
        append: "export FOO=bar".to_string(),
    };
    let mut s = Synchronizer::new();
    assert_eq!(
        s.sync_config(&cfg, "export PATH=/usr/bin\n"),
        Ok("export PATH=/usr/bin\n\n# CONFIBLE START\nexport FOO=bar\n\n# CONFIBLE END\n".to_string())
    );
    let err = s.sync_config(&cfg, "").unwrap_err();
    assert_eq!(err.target, "/tmp/x");
}
