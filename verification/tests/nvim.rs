use nvimkata::nvim::{collect_result, escape_for_lua_sq, normalize, parse_results};

#[test]
fn test_normalize_trims_trailing_whitespace() {
    assert_eq!(normalize("hello   \nworld  \n"), "hello\nworld");
}

#[test]
fn test_normalize_matching() {
    let a = "line1\nline2\n";
    let b = "line1\nline2";
    assert_eq!(normalize(a), normalize(b));
}

#[test]
fn test_normalize_different() {
    let a = "hello";
    let b = "world";
    assert_ne!(normalize(a), normalize(b));
}

#[test]
fn test_normalize_idempotent_samples() {
    for s in ["", "a  \nb\n", "a\n\n\n", "  lead\n\ttab \r\n", "x"] {
        let once = normalize(s);
        assert_eq!(normalize(&once), once);
    }
}

#[test]
fn test_normalize_interior_kept() {
    assert_eq!(normalize("a  b\n\nc\n"), "a  b\n\nc");
}

#[test]
fn test_escape_for_lua_sq() {
    assert_eq!(escape_for_lua_sq("hello"), "hello");
    assert_eq!(escape_for_lua_sq("it's"), "it\\'s");
    assert_eq!(escape_for_lua_sq("a\\b"), "a\\\\b");
    assert_eq!(escape_for_lua_sq("line1\nline2"), "line1\\nline2");
    assert_eq!(escape_for_lua_sq("cr\rhere"), "cr\\rhere");
}

#[test]
fn test_read_results_valid() {
    assert_eq!(parse_results("42\n15\njf8cw3000"), (42, 15, "jf8cw3000".to_string()));
}

#[test]
fn test_read_results_missing_file() {
    assert_eq!(parse_results(""), (0, 0, String::new()));
}

#[test]
fn test_read_results_partial() {
    assert_eq!(parse_results("35\n"), (35, 0, String::new()));
}

#[test]
fn test_read_results_malformed_number() {
    assert_eq!(parse_results("x42\n 7 \nkeys\nextra"), (0, 7, "keys".to_string()));
}

#[test]
fn test_collect_result_matches_normalized() {
    let r = collect_result("a \nb\n", "a\nb", "5\n9\njj");
    assert!(r.buffer_matches);
    assert_eq!(r.keystrokes, 5);
    assert_eq!(r.elapsed_secs, 9);
    assert_eq!(r.keys, "jj");
    let r2 = collect_result("a\nc", "a\nb", "");
    assert!(!r2.buffer_matches);
    assert_eq!(r2.keystrokes, 0);
}

#[test]
fn test_build_lua_script() {
    let c = nvimkata::challenge::Challenge {
        id: "m1".to_string(),
        version: "1".to_string(),
        title: "It's here".to_string(),
        topic: "t".to_string(),
        difficulty: 1,
        hint: "h".to_string(),
        detailed_hint: None,
        par_keystrokes: 10,
        perfect_moves: None,
        focused_actions: None,
        start: nvimkata::challenge::BufferContent {
            content: "s".to_string(),
        },
        target: nvimkata::challenge::BufferContent {
            content: "t".to_string(),
        },
    };
    let script = nvimkata::nvim::build_lua_script(&c, 3, 32, false, "/tmp/r", "/tmp/t", "/tmp/s", "-- body");
    assert!(script.starts_with("_VK_NUMBER = 3\n_VK_TITLE = 'It\\'s here'\n_VK_PAR = 10\n"));
    assert!(script.contains("_VK_FREESTYLE = false\n"));
    assert!(script.contains("_VK_THRESHOLD_A = 10\n"));
    assert!(script.contains("_VK_THRESHOLD_F = 32\n"));
    assert!(script.ends_with("\n\n-- body"));
}

#[test]
fn test_session_limit() {
    let mut c = nvimkata::challenge::Challenge {
        id: "m1".to_string(),
        version: "1".to_string(),
        title: "x".to_string(),
        topic: "t".to_string(),
        difficulty: 1,
        hint: "h".to_string(),
        detailed_hint: None,
        par_keystrokes: 10,
        perfect_moves: None,
        focused_actions: None,
        start: nvimkata::challenge::BufferContent {
            content: "s".to_string(),
        },
        target: nvimkata::challenge::BufferContent {
            content: "t".to_string(),
        },
    };
    assert_eq!(nvimkata::nvim::session_limit(&c), 32);
    c.par_keystrokes = 0;
    assert_eq!(nvimkata::nvim::session_limit(&c), 9999);
}
