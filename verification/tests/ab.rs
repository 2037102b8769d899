use std::time::{Duration, UNIX_EPOCH};

use limae::hook::ab::{
    announcement, draw_from, free_names, pair, render, pending_code, run_entry, trial_context, trial_entries, trial_from, Candidate, Trial,
    CODE_NAMES,
};
use limae::hook::state::timestamp;

fn candidate(engine: &str, model: &str) -> Candidate {
    Candidate {
        engine: engine.to_owned(),
        model: model.to_owned(),
    }
}

fn trial() -> Trial {
    Trial {
        code: "灯塔".to_owned(),
        a: candidate("codex", "gpt-5.6-luna"),
        b: candidate("grok", "grok-4.5"),
    }
}

/// A pool too small to draw two from draws nothing at all, including the pool
/// of one.
#[test]
fn a_pool_too_small_for_two_draws_nothing() -> Result<(), &'static str> {
    assert_eq!(pair(&[]), None);
    assert_eq!(pair(&[candidate("grok", "grok-4.5")]), None);
    let two = [candidate("grok", "grok-4.5"), candidate("grok", "grok-4.6")];
    let (a, b) = pair(&two).ok_or("a pool of two drew nothing")?;
    assert_ne!(a, b);
    assert!(two.contains(&a) && two.contains(&b));
    Ok(())
}

#[test]
fn the_block_is_two_labelled_columns_under_one_code_name() {
    assert_eq!(
        render(&trial(), ("甲的显示", "乙的显示")),
        "[A/B 灯塔] 原文如上，以下是两个候选：\n\n\
         ── A ──\n甲的显示\n\n\
         ── B ──\n乙的显示\n"
    );
}

/// The pool's shape: distinct names, two Chinese characters each.
#[test]
fn the_code_names_are_forty_eight_distinct_two_character_names() {
    let distinct: std::collections::HashSet<&str> = CODE_NAMES.into_iter().collect();
    assert_eq!(distinct.len(), CODE_NAMES.len());
    for name in CODE_NAMES {
        assert_eq!(name.chars().count(), 2, "{name}");
        assert!(
            name.chars()
                .all(|character| ('\u{4e00}'..='\u{9fff}').contains(&character)),
            "{name}"
        );
    }
}

/// The ledger and the pending file, byte for byte: keys in the order they are
/// written, two-space indent, no trailing newline.
#[test]
fn a_trial_entry_is_laid_out_key_by_key_in_the_order_written() {
    let at = timestamp(UNIX_EPOCH + Duration::from_micros(1_700_000_000_500_000));
    let (ledger, pending) = trial_entries(
        &trial(),
        &at,
        "原文\"引号\"。",
        ("甲的改写", "乙的改写"),
        ("甲的显示", "乙的显示"),
    );
    let candidates = "\"candidates\": [\n    {\n      \"label\": \"A\",\n      \
        \"engine\": \"codex\",\n      \"model\": \"gpt-5.6-luna\",\n      \
        \"text\": \"甲的改写\",\n      \"displayed\": \"甲的显示\"\n    },\n    \
        {\n      \"label\": \"B\",\n      \"engine\": \"grok\",\n      \
        \"model\": \"grok-4.5\",\n      \"text\": \"乙的改写\",\n      \
        \"displayed\": \"乙的显示\"\n    }\n  ]";
    let at = "\"at\": \"2023-11-14T22:13:20.500000+00:00\"";
    assert_eq!(
        ledger,
        format!(
            "{{\n  \"code\": \"灯塔\",\n  {at},\n  \
             \"original\": \"原文\\\"引号\\\"。\",\n  {candidates}\n}}"
        )
    );
    assert_eq!(
        pending,
        format!("{{\n  \"code\": \"灯塔\",\n  {at},\n  {candidates}\n}}")
    );
}

#[test]
fn a_run_entry_keeps_the_three_versions_apart() {
    let at = timestamp(UNIX_EPOCH + Duration::from_secs(1_700_000_000));
    assert_eq!(
        run_entry(&at, "m1", "原文", "写的", "显示的", &candidate("codex", "gpt-5.4")),
        "{\n  \"at\": \"2023-11-14T22:13:20+00:00\",\n  \"message_id\": \"m1\",\n  \
         \"engine\": \"codex\",\n  \"model\": \"gpt-5.4\",\n  \"original\": \"原文\",\n  \
         \"text\": \"写的\",\n  \"displayed\": \"显示的\"\n}"
    );
}

/// The screen never names a model: neither the block nor the announcement.
#[test]
fn the_screen_never_names_a_model() {
    let trial = trial();
    let seen = format!(
        "{}{}",
        render(&trial, ("甲的显示", "乙的显示")),
        announcement(&trial.code, "/state/ab/灯塔.json")
    );
    for name in [
        trial.a.engine.as_str(),
        trial.a.model.as_str(),
        trial.b.engine.as_str(),
        trial.b.model.as_str(),
    ] {
        assert!(!seen.contains(name), "{name} reached the screen");
    }
    assert!(seen.contains("「灯塔」"));
    assert!(seen.contains("/state/ab/灯塔.json"));
}

#[test]
fn a_session_that_has_used_every_code_name_draws_no_more() {
    let everything: Vec<String> = CODE_NAMES.iter().map(|name| (*name).to_owned()).collect();
    assert!(free_names(&everything).is_empty());
    let two = [candidate("grok", "grok-4.5"), candidate("grok", "grok-4.6")];
    assert_eq!(draw_from(&two, &everything), None);
    assert_eq!(draw_from(&two[..1], &[]), None);
    let all_but_one = &everything[1..];
    assert_eq!(free_names(all_but_one), vec![CODE_NAMES[0]]);
    if let Some(drawn) = draw_from(&two, all_but_one) {
        assert_eq!(drawn.code, CODE_NAMES[0]);
        assert_ne!(drawn.a, drawn.b);
    }
}

#[test]
fn two_random_words_draw_two_different_positions() {
    assert_eq!(limae::hook::ab::position_from(17, 5), 2);
    assert_eq!(limae::hook::ab::positions_from(7, 7, 4), (3, 1));
    assert_eq!(limae::hook::ab::positions_from(5, 9, 4), (1, 0));
    assert_eq!(limae::hook::ab::positions_from(4, 1, 4), (0, 2));
    assert_eq!(limae::hook::ab::positions_from(0, 0, 2), (0, 1));
}

/// Three words draw one trial: the first picks A among all, the second picks
/// B among the rest, stepping over A, and the third picks among the free names.
#[test]
fn three_words_draw_the_trial_they_say() {
    let pool = [
        candidate("codex", "gpt-5.6-luna"),
        candidate("gemini", "flash"),
        candidate("grok", "grok-4.5"),
    ];
    let used = ["灯塔".to_owned()];
    let trial = trial_from(&pool, &used, 4, 1, 2).expect("two candidates and a free name draw a trial");
    // 4 % 3 picks position 1; 1 % 2 is 1, which steps over 1 to position 2;
    // 2 % 47 picks the third free name, 灯塔 being used.
    assert_eq!(trial.a, pool[1]);
    assert_eq!(trial.b, pool[2]);
    assert_eq!(trial.code, "森林");
    let low = trial_from(&pool, &used, 0, 0, 0).expect("any words draw a trial");
    assert_eq!((low.a, low.b, low.code.as_str()), (pool[0].clone(), pool[1].clone(), "山谷"));
}

#[test]
fn no_words_draw_a_trial_without_two_candidates_or_a_free_name() {
    let pool = [candidate("codex", "gpt-5.6-luna"), candidate("gemini", "flash")];
    assert!(trial_from(&pool[..1], &[], 7, 7, 7).is_none());
    let every: Vec<String> = CODE_NAMES.iter().map(|name| (*name).to_owned()).collect();
    assert!(trial_from(&pool, &every, 7, 7, 7).is_none());
    assert!(draw_from(&pool, &every).is_none());
}

#[test]
fn the_pending_file_names_the_code_or_nothing() {
    assert_eq!(pending_code("{\"code\":\"灯塔\",\"at\":\"t\"}".as_bytes()), Some("灯塔".to_owned()));
    assert_eq!(pending_code(b"{}"), Some(String::new()));
    assert_eq!(pending_code(b"{\"code\": 3}"), Some(String::new()));
    assert_eq!(pending_code(b"not json"), None);
    assert_eq!(pending_code(b""), None);
}

#[test]
fn the_context_is_the_announcement_of_a_named_code_and_else_nothing() {
    assert_eq!(
        trial_context("灯塔", "/s/ab/灯塔.json"),
        "limae A/B：本轮有一次 A/B 对照，编号「灯塔」，两栏是盲评。型号对应在 /s/ab/灯塔.json；用户按编号给出偏好之前不要说出哪一栏是哪个模型。"
    );
    assert_eq!(trial_context("", "/s/ab/.json"), "");
}
