use difft_file_viewer::cli::{cli_usage_error, parse_cli_args, trim_start_matches, usage};
use difft_file_viewer::format::{
    cache_key, combined_warnings, content_lines, failure_message, format_input, formatted_cache_file_name,
    formatting_enabled, should_format_file_c, spawn_detached_format_file_c, wants_formatted_copy, FileMtime, FormatCache, FORMAT_CACHE_VERSION,
};
use difft_file_viewer::paths::{has_extension, is_c_cpp_extension, is_c_cpp_file};
use difft_file_viewer::probe::{
    difft_binary_name, difft_not_found, difft_path_variants, dift_path_error, explicit_difft_error, install_message,
    first_working, resolve_difft,
    Platform,
};
use difft_file_viewer::text::{decimal_string, hex16, trim};

fn args(v: &[&str]) -> Vec<String> {
    v.iter().map(|s| s.to_string()).collect()
}

#[test]
fn recognizes_common_c_cpp_extensions() {
    assert!(is_c_cpp_file("foo.cpp"));
    assert!(is_c_cpp_file("bar.C"));
    assert!(is_c_cpp_file("baz.hpp"));
    assert!(!is_c_cpp_file("main.rs"));
    assert!(!is_c_cpp_file("readme"));
}

#[test]
fn should_format_file_c_skips_non_cpp() {
    assert!(!should_format_file_c(true, "foo.rs"));
    assert!(!should_format_file_c(false, "foo.rs"));
    assert!(should_format_file_c(true, "foo.cc"));
    assert!(!should_format_file_c(false, "foo.cc"));
}

#[test]
fn spawn_format_skips_non_cpp() {
    assert!(spawn_detached_format_file_c(should_format_file_c(true, "foo.rs"), true, &["fn main() {}".into()]).is_ok());
}

#[test]
fn spawn_format_plans_cpp_with_config() {
    let lines: Vec<String> = vec!["int x;".into(), "int y;".into()];
    assert_eq!(spawn_detached_format_file_c(should_format_file_c(true, "foo.cpp"), true, &lines), Ok(Some("int x;\nint y;".to_string())));
    assert_eq!(
        spawn_detached_format_file_c(should_format_file_c(true, "foo.cpp"), false, &lines),
        Err("missing non-empty .clangformat in cwd".to_string())
    );
    assert_eq!(spawn_detached_format_file_c(should_format_file_c(false, "foo.cpp"), false, &lines), Ok(None));
    assert_eq!(spawn_detached_format_file_c(should_format_file_c(true, ".hpp"), true, &lines), Ok(None));
}

#[test]
fn difft_binary_name_matches_platform() {
    assert_eq!(difft_binary_name(Platform::Windows), "difft.exe");
    assert_eq!(difft_binary_name(Platform::Other), "difft");
    assert_eq!(difft_binary_name(Platform::MacOs), "difft");
}

#[test]
fn difft_path_variants_adds_exe_suffix_on_windows() {
    let variants = difft_path_variants("/tmp/difft", ".exe");
    assert_eq!(variants.len(), 2);
    assert_eq!(variants[1], "/tmp/difft.exe");
    let variants = difft_path_variants("/tmp/difft", "");
    assert_eq!(variants.len(), 1);
    assert_eq!(difft_path_variants("/tmp/difft.bin", ".exe"), vec!["/tmp/difft.bin".to_owned()]);
}

#[test]
fn cache_key_is_stable_for_same_path() {
    let a = cache_key("/tmp/difft-clang-key.cpp");
    let b = cache_key("/tmp/difft-clang-key.cpp");
    assert_eq!(a, b);
    assert_eq!(a.len(), 16);
    assert!(a.chars().all(|c| c.is_ascii_hexdigit() && !c.is_ascii_uppercase()));
}

#[test]
fn parses_two_and_three_paths() {
    let two = parse_cli_args(&args(&["a.rs", "b.rs"])).unwrap();
    assert_eq!(two.path_a, "a.rs");
    assert_eq!(two.path_b, "b.rs");
    assert!(two.path_c.is_none());
    assert!(two.difft.is_none());
    let three = parse_cli_args(&args(&["--difft", "/bin/difft", "a", "b", "c"])).unwrap();
    assert_eq!(three.path_c.as_deref(), Some("c"));
    assert_eq!(three.difft.as_deref(), Some("/bin/difft"));
    let eq = parse_cli_args(&args(&["a", "--difft=--difft=x", "b"])).unwrap();
    assert_eq!(eq.difft.as_deref(), Some("x"));
}

#[test]
fn cli_errors() {
    assert_eq!(parse_cli_args(&args(&["-h", "a", "b"])).unwrap_err(), usage());
    assert_eq!(
        parse_cli_args(&args(&["a", "b", "--difft"])).unwrap_err(),
        format!("--difft requires a path.\n\n{}", usage())
    );
    assert_eq!(
        parse_cli_args(&args(&["--difft=", "a", "b"])).unwrap_err(),
        format!("--difft requires a path.\n\n{}", usage())
    );
    assert_eq!(
        parse_cli_args(&args(&["-x", "a", "b"])).unwrap_err(),
        format!("unknown option: -x\n\n{}", usage())
    );
    assert_eq!(parse_cli_args(&args(&["a"])).unwrap_err(), cli_usage_error(1));
    assert!(cli_usage_error(0).ends_with("Error: at least two file paths are required."));
    assert!(cli_usage_error(1).ends_with("Error: at least two file paths are required (got 1)."));
    assert!(cli_usage_error(4).ends_with("Error: expected 2 or 3 file paths (got 4)."));
    assert!(usage().starts_with("Usage: difft-file-viewer [--difft PATH] <file-a> <file-b> [<file-c>]\n\nOptions:\n--difft PATH"));
}

#[test]
fn trim_start_matches_strips_repeatedly() {
    assert_eq!(trim_start_matches("ababc", "ab"), "c");
    assert_eq!(trim_start_matches("abc", ""), "abc");
    assert_eq!(trim_start_matches("xab", "ab"), "xab");
}

#[test]
fn install_messages_name_the_platform_tools() {
    let mac = install_message(Platform::MacOs);
    assert!(mac.starts_with("Install difft:\n\nbrew install difftastic\nVerification:\n  difft --version\n\nOr build"));
    assert!(install_message(Platform::Windows).contains("winget install Wilfred.difftastic"));
    assert!(install_message(Platform::Windows).contains("difftastic\\target\\debug\\difft.exe"));
    assert!(install_message(Platform::Other).contains("sudo pacman -S difftastic        # Arch Linux"));
    assert_eq!(difft_not_found(Platform::Other), format!("difft not found.\n\n{}", install_message(Platform::Other)));
    assert!(explicit_difft_error("/x", Platform::Other).starts_with("--difft does not point to a working difft binary: /x\n\n"));
    assert!(dift_path_error("/y", Platform::MacOs).starts_with("DIFT_PATH does not point to a working difft binary: /y\n\n"));
}

#[test]
fn format_cache_tracks_sources() {
    let t1 = FileMtime { modified_secs: 1, modified_nanos: 2 };
    let t2 = FileMtime { modified_secs: 3, modified_nanos: 4 };
    let mut cache = FormatCache::empty();
    assert_eq!(cache.version, FORMAT_CACHE_VERSION);
    assert!(cache.sync_config(t1));
    assert!(!cache.sync_config(t1));
    cache.record("abc123", t2);
    assert!(cache.is_fresh("abc123", t2));
    assert!(!cache.is_fresh("abc123", t1));
    assert!(!cache.is_fresh("other", t2));
    cache.record("abc123", t1);
    assert_eq!(cache.entries.len(), 1);
    assert!(cache.is_fresh("abc123", t1));
    let saved = cache.for_save();
    assert_eq!(saved.entries.len(), 1);
    assert!(cache.sync_config(t2));
    assert!(cache.entries.is_empty());
    let stale = FormatCache { version: 1, config: Some(t1), entries: vec![("k".into(), t1)] };
    let (fresh, cleared) = stale.checked_version();
    assert!(cleared);
    assert!(fresh.entries.is_empty());
    assert_eq!(fresh.version, 3);
}

#[test]
fn formatted_copy_names_and_gates() {
    assert_eq!(formatted_cache_file_name("0123", Some("cpp")), "0123.cpp");
    assert_eq!(formatted_cache_file_name("0123", None), "0123.txt");
    assert!(wants_formatted_copy(true, true, true, "x.h"));
    assert!(!wants_formatted_copy(true, false, true, "x.h"));
    assert!(!wants_formatted_copy(true, true, true, "x.py"));
    assert!(has_extension("a/b.c"));
    assert!(!has_extension("a/b"));
    assert!(is_c_cpp_extension(Some("H++")));
    assert!(!is_c_cpp_extension(None));
}

#[test]
fn clang_format_text_round_trip() {
    assert_eq!(content_lines("a\r\nb\n"), vec!["a".to_owned(), "b".to_owned()]);
    assert_eq!(content_lines("a\nb\r"), vec!["a".to_owned(), "b\r".to_owned()]);
    assert!(content_lines("").is_empty());
    assert_eq!(format_input(&["x".to_owned(), "y".to_owned()]), "x\ny");
    assert_eq!(combined_warnings(&[]), None);
    assert_eq!(combined_warnings(&["w1".to_owned(), "w2".to_owned()]).unwrap(), "w1\nw2");
    assert_eq!(failure_message("  oops \n", "exit status 1".into()), "oops");
    assert_eq!(failure_message(" \n", "exit status 1".into()), "exit status 1");
}

#[test]
fn number_formatting() {
    assert_eq!(decimal_string(0), "0");
    assert_eq!(decimal_string(1234567890123), "1234567890123");
    assert_eq!(hex16(0xab), "00000000000000ab");
    assert_eq!(hex16(u64::MAX), "ffffffffffffffff");
    assert_eq!(trim("\u{a0} x y\t"), "x y");
}

#[test]
fn formatting_needs_config_and_tool() {
    assert!(formatting_enabled(true, true));
    assert!(!formatting_enabled(true, false));
    assert!(!formatting_enabled(false, true));
}

#[test]
fn explicit_difft_resolves_to_a_working_variant_or_fails_with_hint() {
    assert_eq!(resolve_difft("/opt/difft", ".exe", &[false, true], Platform::Windows), Ok("/opt/difft.exe".to_string()));
    assert_eq!(resolve_difft("/opt/difft", ".exe", &[true], Platform::Windows), Ok("/opt/difft".to_string()));
    assert_eq!(resolve_difft("/opt/difft.bin", ".exe", &[false, true], Platform::Windows).is_err(), true);
    let err = resolve_difft("/opt/difft", "", &[false], Platform::Other).unwrap_err();
    assert!(err.starts_with("--difft does not point to a working difft binary: /opt/difft\n\nInstall difft"));
    assert_eq!(err, explicit_difft_error("/opt/difft", Platform::Other));
}

#[test]
fn c_cpp_detection_uses_the_last_path_component() {
    assert!(is_c_cpp_file("src/dir/a.cpp"));
    assert!(is_c_cpp_file("/abs/a.H"));
    assert!(is_c_cpp_file("a.cpp/"));
    assert!(is_c_cpp_file("dir/b.hpp/."));
    assert!(!is_c_cpp_file("dir.c/readme"));
    assert!(!is_c_cpp_file("dir/.c"));
    assert!(!is_c_cpp_file("dir/b.c/.."));
    assert!(has_extension("x/a.b/"));
    assert!(!has_extension("x.y/z"));
    assert!(!should_format_file_c(true, "dir/c.rs"));
    assert!(should_format_file_c(true, "dir/c.cc"));
    assert_eq!(spawn_detached_format_file_c(should_format_file_c(true, "dir/c.rs"), true, &["x".to_string()]), Ok(None));
    assert_eq!(difft_path_variants("bin.d/difft", ".exe"), vec!["bin.d/difft".to_owned(), "bin.d/difft.exe".to_owned()]);
}

#[test]
fn cache_key_is_sixteen_hex_digits_of_the_hash() {
    let k = cache_key("/src/a.cpp");
    assert_eq!(k.len(), 16);
    assert!(k.chars().all(|c| c.is_ascii_hexdigit() && !c.is_ascii_uppercase()));
    assert_eq!(k, cache_key("/src/a.cpp"));
    assert_ne!(k, cache_key("/src/b.cpp"));
}

#[test]
fn the_first_candidate_that_runs_is_chosen() {
    let c = vec!["/a/difft".to_string(), "/a/difft.exe".to_string()];
    assert_eq!(first_working(&c, &[false, true]), Some("/a/difft.exe".to_string()));
    assert_eq!(first_working(&c, &[true]), Some("/a/difft".to_string()));
    assert_eq!(first_working(&c, &[false, false]), None);
    assert_eq!(first_working(&c, &[false]), None);
    assert_eq!(first_working(&c, &[false, false, true]), None);
}
