use cf_dyndns::config::{
    classify_line, collect_entries, config_file_path, rewrite_config, split_lines, Args, Config,
    LineClass,
};
use cf_dyndns::error::Error;

fn args(config_file: Option<&str>, domains_file: Option<&str>, token: &str) -> Args {
    Args {
        config_file: config_file.map(|s| s.to_string()),
        domains_file: domains_file.map(|s| s.to_string()),
        cloudflare_token: token.to_string(),
    }
}

#[test]
fn lines_are_cut_like_std_lines() {
    assert_eq!(split_lines(""), Vec::<String>::new());
    assert_eq!(split_lines("a\nb"), vec!["a", "b"]);
    assert_eq!(split_lines("a\nb\n"), vec!["a", "b"]);
    assert_eq!(split_lines("a\r\nb\r\n"), vec!["a", "b"]);
    assert_eq!(split_lines("a\n\nb"), vec!["a", "", "b"]);
    assert_eq!(split_lines("\n"), vec![""]);
}

#[test]
fn classification_of_lines() {
    assert!(matches!(classify_line(""), LineClass::Comment));
    assert!(matches!(classify_line("   "), LineClass::Comment));
    assert!(matches!(classify_line("# note"), LineClass::Comment));
    assert!(matches!(classify_line("  # indented note"), LineClass::Comment));
    assert!(matches!(classify_line("no equals sign"), LineClass::Invalid));
    assert!(matches!(classify_line("a=b=c"), LineClass::Invalid));
    match classify_line(" key = value # why") {
        LineClass::Entry { key, value, trailing } => {
            assert_eq!(key, "key");
            assert_eq!(value, "value");
            assert_eq!(trailing, "# why");
        }
        _ => panic!("expected an entry"),
    }
    match classify_line("empty=") {
        LineClass::Entry { key, value, trailing } => {
            assert_eq!(key, "empty");
            assert_eq!(value, "");
            assert_eq!(trailing, "");
        }
        _ => panic!("expected an entry"),
    }
}

#[test]
fn entries_are_collected_with_last_write_winning() {
    let text = "# header\n\ntoken = abc\nmode=fast\ntoken=xyz # override\n";
    let (entries, ok) = collect_entries(text);
    assert!(ok);
    let cfg = Config::new(&args(None, None, ""), text);
    assert_eq!(cfg.read_config_entry("token"), Some(&"xyz".to_string()));
    assert_eq!(cfg.read_config_entry("mode"), Some(&"fast".to_string()));
    assert_eq!(cfg.read_config_entry("missing"), None);
    // Three meaningful lines were seen; the newest write stands first.
    assert_eq!(entries.len(), 3);
}

#[test]
fn an_invalid_line_stops_collection_and_keeps_the_prefix() {
    let (_, ok) = collect_entries("a=1\nbroken line\nb=2\n");
    assert!(!ok);
    let cfg = Config::new(&args(None, None, ""), "a=1\nbroken line\nb=2\n");
    assert_eq!(cfg.read_config_entry("a"), Some(&"1".to_string()));
    assert_eq!(cfg.read_config_entry("b"), None);
}

#[test]
fn rewrite_replaces_the_key_and_preserves_comments() {
    let text = "# header\ntoken = old\nmode=fast\n";
    let out = rewrite_config(text, "token", "new").unwrap();
    assert_eq!(out, "# header\ntoken=new\nmode=fast\n");
}

#[test]
fn rewrite_moves_an_inline_comment_to_its_own_line() {
    let out = rewrite_config("a = 1 # keep me\n", "b", "2").unwrap();
    assert_eq!(out, "a=1\n# keep me\n");
}

#[test]
fn rewrite_fails_on_an_invalid_line() {
    assert_eq!(rewrite_config("a=1\nnot an entry\n", "a", "2"), Err(Error::Validation));
}

#[test]
fn command_line_token_wins_over_configured_token() {
    let cfg = Config::new(&args(None, None, "cli-token"), "cloudflare_token=file-token\n");
    assert_eq!(cfg.read_cloudflare_token(), "cli-token");
}

#[test]
fn configured_token_is_used_when_none_is_given() {
    let cfg = Config::new(&args(None, None, ""), "cloudflare_token=file-token\n");
    assert_eq!(cfg.read_cloudflare_token(), "file-token");
}

#[test]
fn domains_file_path_prefers_the_command_line_then_the_config() {
    let cfg = Config::new(&args(None, Some("given.json"), ""), "domains_file=from-config.json\n");
    assert_eq!(cfg.read_domains_file_path(), "given.json");
    let cfg = Config::new(&args(None, None, ""), "domains_file=from-config.json\n");
    assert_eq!(cfg.read_domains_file_path(), "from-config.json");
    let cfg = Config::new(&args(None, None, ""), "");
    assert_eq!(cfg.read_domains_file_path(), "domains.json");
}

#[test]
fn config_file_path_defaults() {
    assert_eq!(config_file_path(&args(Some("here.conf"), None, "")), "here.conf");
    assert_eq!(config_file_path(&args(None, None, "")), "cf-dynamic.conf");
}
