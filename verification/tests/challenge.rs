use nvimkata::challenge::{count_keystrokes, BufferContent, Category, Challenge, Grade, Medal};

fn sample_challenge() -> Challenge {
    Challenge {
        id: "motion_001".to_string(),
        version: "1.0.0".to_string(),
        title: "Test Challenge".to_string(),
        topic: "motions".to_string(),
        difficulty: 1,
        hint: "Use f to find".to_string(),
        detailed_hint: Some("Try 3fw".to_string()),
        par_keystrokes: 10,
        perfect_moves: None,
        focused_actions: None,
        start: BufferContent {
            content: "hello world".to_string(),
        },
        target: BufferContent {
            content: "hello rust".to_string(),
        },
    }
}

#[test]
fn test_grade_a_at_par() {
    let c = sample_challenge();
    assert_eq!(c.score(10), Grade::A);
}

#[test]
fn test_grade_a_under_par() {
    let c = sample_challenge();
    assert_eq!(c.score(7), Grade::A);
}

#[test]
fn test_grade_b() {
    let c = sample_challenge();
    assert_eq!(c.score(11), Grade::B);
    assert_eq!(c.score(14), Grade::B);
}

#[test]
fn test_grade_c() {
    let c = sample_challenge();
    assert_eq!(c.score(15), Grade::C);
    assert_eq!(c.score(18), Grade::C);
}

#[test]
fn test_grade_d() {
    let c = sample_challenge();
    assert_eq!(c.score(19), Grade::D);
    assert_eq!(c.score(24), Grade::D);
}

#[test]
fn test_grade_e() {
    let c = sample_challenge();
    assert_eq!(c.score(25), Grade::E);
    assert_eq!(c.score(28), Grade::E);
}

#[test]
fn test_grade_f() {
    let c = sample_challenge();
    assert_eq!(c.score(29), Grade::F);
    assert_eq!(c.score(100), Grade::F);
}

#[test]
fn test_thresholds() {
    let c = sample_challenge();
    assert_eq!(c.threshold(Grade::A), 10);
    assert_eq!(c.threshold(Grade::B), 14);
    assert_eq!(c.threshold(Grade::C), 18);
    assert_eq!(c.threshold(Grade::D), 24);
    assert_eq!(c.threshold(Grade::E), 28);
    assert_eq!(c.threshold(Grade::F), 32);
}

#[test]
fn test_category_for_topic() {
    assert_eq!(Category::for_topic(1), Category::Beginner);
    assert_eq!(Category::for_topic(2), Category::Beginner);
    assert_eq!(Category::for_topic(3), Category::Intermediate);
    assert_eq!(Category::for_topic(4), Category::Intermediate);
    assert_eq!(Category::for_topic(5), Category::Advanced);
    assert_eq!(Category::for_topic(6), Category::Advanced);
    assert_eq!(Category::for_topic(7), Category::Advanced);
    assert_eq!(Category::for_topic(8), Category::Legendary);
    assert_eq!(Category::for_topic(100), Category::Freestyle);
    assert_eq!(Category::for_topic(107), Category::Freestyle);
}

#[test]
fn test_category_freestyle() {
    assert_eq!(Category::Freestyle.name(), "FREESTYLE");
    assert_eq!(Category::all().len(), 5);
    assert!(Category::all().contains(&Category::Freestyle));
}

#[test]
fn test_is_freestyle() {
    let mut c = sample_challenge();
    assert!(!c.is_freestyle());

    c.par_keystrokes = 0;
    assert!(c.is_freestyle());

    c.perfect_moves = Some(vec!["jj".to_string()]);
    assert!(!c.is_freestyle());
}

#[test]
fn test_count_keystrokes() {
    assert_eq!(count_keystrokes("jf8cw3000"), 9);
    assert_eq!(count_keystrokes("jf8cw3000<Esc>"), 10);
    assert_eq!(count_keystrokes("<C-r>a"), 2);
    assert_eq!(count_keystrokes(":%s/^/- [x] <Enter>"), 13);
}

#[test]
fn test_count_keystrokes_edges() {
    assert_eq!(count_keystrokes(""), 0);
    assert_eq!(count_keystrokes("<unterminated"), 1);
    assert_eq!(count_keystrokes("<lt>Esc>"), 5);
    assert_eq!(count_keystrokes("<a-very-long-key-name>"), 1);
}

#[test]
fn test_medal_display_char() {
    assert_eq!(Medal::Perfect.display_char(), "P");
    assert_eq!(Medal::Gold.display_char(), "G");
    assert_eq!(Medal::Silver.display_char(), "S");
    assert_eq!(Medal::Bronze.display_char(), "B");
}

#[test]
fn test_medal_to_grade() {
    assert_eq!(Medal::Perfect.to_grade(), Grade::A);
    assert_eq!(Medal::Gold.to_grade(), Grade::B);
    assert_eq!(Medal::Silver.to_grade(), Grade::C);
    assert_eq!(Medal::Bronze.to_grade(), Grade::D);
}

#[test]
fn test_grading_monotone_samples() {
    let c = sample_challenge();
    let mut last = 0u8;
    for k in 0..200u32 {
        let rank = nvimkata::state::grade_rank(c.score(k));
        assert!(rank >= last, "grading must never improve with more keystrokes");
        last = rank;
    }
}

#[test]
fn test_score_zero_par() {
    let mut c = sample_challenge();
    c.par_keystrokes = 0;
    assert_eq!(c.score(0), Grade::A);
    assert_eq!(c.score(1), Grade::F);
}
