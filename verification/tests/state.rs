use nvimkata::challenge::{BufferContent, Challenge, Grade};
use nvimkata::state::GameState;

fn test_challenge(id: &str, version: &str) -> Challenge {
    Challenge {
        id: id.to_string(),
        version: version.to_string(),
        title: format!("Test {id}"),
        topic: "motions".to_string(),
        difficulty: 1,
        hint: "hint".to_string(),
        detailed_hint: None,
        par_keystrokes: 10,
        perfect_moves: None,
        focused_actions: None,
        start: BufferContent {
            content: "a".to_string(),
        },
        target: BufferContent {
            content: "b".to_string(),
        },
    }
}

#[test]
fn test_default_state() {
    let state = GameState::default();
    assert!(state.challenges.is_empty());
    assert_eq!(state.stats.challenges_attempted, 0);
}

#[test]
fn test_record_result_stores_grade() {
    let mut state = GameState::default();
    state.record_result("motion_001", Grade::C, 12, 30, "jf8cw3000", "1.0.0");
    assert_eq!(state.best_grade("motion_001"), Some(Grade::C));
}

#[test]
fn test_record_result_keeps_better_grade() {
    let mut state = GameState::default();
    state.record_result("motion_001", Grade::C, 12, 30, "jf8cw3000", "1.0.0");
    state.record_result("motion_001", Grade::B, 7, 15, "jcw3000", "1.0.0");
    assert_eq!(state.best_grade("motion_001"), Some(Grade::B));
}

#[test]
fn test_record_result_does_not_downgrade() {
    let mut state = GameState::default();
    state.record_result("motion_001", Grade::B, 7, 15, "jcw3000", "1.0.0");
    state.record_result("motion_001", Grade::D, 30, 60, "jjjjcw3000", "1.0.0");
    assert_eq!(state.best_grade("motion_001"), Some(Grade::B));
}

#[test]
fn test_record_result_updates_on_fewer_keystrokes() {
    let mut state = GameState::default();
    state.record_result("motion_001", Grade::B, 12, 30, "jf8cw3000", "1.0.0");
    state.record_result("motion_001", Grade::B, 9, 20, "jcw3000", "1.0.0");
    assert_eq!(state.best_keystrokes("motion_001"), Some(9));
}

#[test]
fn test_stats_accumulate() {
    let mut state = GameState::default();
    state.record_result("m001", Grade::B, 10, 20, "keys1", "1.0.0");
    state.record_result("m002", Grade::C, 15, 25, "keys2", "1.0.0");
    assert_eq!(state.stats.total_keystrokes, 25);
    assert_eq!(state.stats.challenges_attempted, 2);
}

#[test]
fn test_mark_stale_matching_version_not_stale() {
    let mut state = GameState::default();
    state.record_result("m001", Grade::B, 10, 20, "keys", "1.0.0");
    let challenges = [test_challenge("m001", "1.0.0")];
    state.mark_stale(&challenges);
    assert!(!state.is_stale("m001"));
    assert_eq!(state.stale_count(), 0);
    assert_eq!(state.best_grade("m001"), Some(Grade::B));
}

#[test]
fn test_mark_stale_mismatched_version_marked() {
    let mut state = GameState::default();
    state.record_result("m001", Grade::B, 10, 20, "keys", "1.0.0");
    let challenges = [test_challenge("m001", "1.0.1")];
    state.mark_stale(&challenges);
    assert!(state.is_stale("m001"));
    assert_eq!(state.stale_count(), 1);
    assert_eq!(state.best_grade("m001"), Some(Grade::B));
    assert!(state.history_for("m001").is_some());
}

#[test]
fn test_mark_stale_unknown_challenge_not_touched() {
    let mut state = GameState::default();
    state.record_result("m001", Grade::B, 10, 20, "keys", "1.0.0");
    state.record_result("deleted", Grade::C, 15, 25, "keys2", "1.0.0");
    let challenges = [test_challenge("m001", "1.0.0")];
    state.mark_stale(&challenges);
    assert!(!state.is_stale("m001"));
    assert!(!state.is_stale("deleted"));
    assert_eq!(state.best_grade("deleted"), Some(Grade::C));
}

#[test]
fn test_stale_cleared_on_new_result() {
    let mut state = GameState::default();
    state.record_result("m001", Grade::B, 10, 20, "keys", "1.0.0");
    let challenges = [test_challenge("m001", "1.0.1")];
    state.mark_stale(&challenges);
    assert!(state.is_stale("m001"));
    assert_eq!(state.history_for("m001").unwrap().len(), 1);
    state.record_result("m001", Grade::D, 30, 60, "long_keys", "1.0.1");
    assert!(!state.is_stale("m001"));
    assert_eq!(state.best_grade("m001"), Some(Grade::D));
    assert_eq!(state.history_for("m001").unwrap().len(), 1);
    assert_eq!(state.history_for("m001").unwrap()[0].keystrokes, 30);
}

#[test]
fn test_freestyle_improves_on_fewer_keystrokes_only() {
    let mut state = GameState::default();
    state.record_freestyle_result("f001", 40, 30, "keys", "1.0.0");
    assert_eq!(state.best_keystrokes("f001"), Some(40));
    state.record_freestyle_result("f001", 55, 20, "keys2", "1.0.0");
    assert_eq!(state.best_keystrokes("f001"), Some(40));
    state.record_freestyle_result("f001", 33, 25, "keys3", "1.0.0");
    assert_eq!(state.best_keystrokes("f001"), Some(33));
}

#[test]
fn test_history_bounded_and_sorted() {
    let mut state = GameState::default();
    for k in 0..15u32 {
        state.record_result("m001", Grade::F, 100 - k, 10, "keys", "1.0.0");
    }
    let hist = state.history_for("m001").unwrap();
    assert_eq!(hist.len(), 10);
    for w in hist.windows(2) {
        assert!(w[0].keystrokes <= w[1].keystrokes);
    }
    assert_eq!(hist[0].keystrokes, 86);
}

#[test]
fn test_save_error_message() {
    let e = nvimkata::state::SaveError {
        path: "save.json".to_string(),
        source: "bad data".to_string(),
    };
    assert_eq!(
        e.message(),
        "Failed to load save file 'save.json': bad data"
    );
}
