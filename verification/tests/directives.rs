use limae::config::RuleMask;
use limae::directives::{rule_masks, DirectiveError};

fn names(mask: &RuleMask) -> Vec<&'static str> {
    mask.rules().into_iter().map(|rule| rule.as_str()).collect()
}

#[test]
fn empty_and_separator_only_lists_remain_distinct() -> Result<(), DirectiveError> {
    for source in [
        "<!-- limae-disable -->",
        "<!-- limae-disable    -->",
        "\u{a0}<!--\u{2003}limae-disable\u{3000}-->\u{202f}",
    ] {
        let masks = rule_masks(&[source, "中A"], &[false, false])?;
        assert_eq!(masks[0].len(), 21);
        assert_eq!(masks[1].len(), 21);
    }
    for source in ["<!-- limae-disable , -->", "<!-- limae-disable , , -->"] {
        let masks = rule_masks(&[source, "中A"], &[false, false])?;
        assert_eq!(masks[0].len(), 21);
        assert!(masks[1].is_empty());
    }
    Ok(())
}

#[test]
fn persistent_and_pending_state_follow_line_boundaries() -> Result<(), DirectiveError> {
    let lines = [
        "<!-- limae-disable zh-typography-4 -->",
        "中A",
        "<!-- limae-disable-next-line zh-typography-1 -->",
        "<!-- limae-enable zh-typography-4 -->",
        "中,A",
        "<!-- limae-disable-next-line -->",
        "",
        "中A",
        "<!-- limae-disable-next-line zh-typography-4 -->",
    ];
    let masks = rule_masks(&lines, &[false; 9])?;
    assert_eq!(names(&masks[1]), ["zh-typography-4"]);
    assert!(masks[4].is_empty());
    assert_eq!(masks[6].len(), 21);
    assert!(masks[7].is_empty());
    assert_eq!(masks[8].len(), 21);
    Ok(())
}

#[test]
fn verbatim_and_similar_comments_are_ordinary_lines() -> Result<(), DirectiveError> {
    let lines = [
        "<!-- limae-disable-next-line zh-typography-4 -->",
        "<!-- limae-disable unknown -->",
        "中A",
        "<!-- limae-disabled -->",
        "前文 <!-- limae-disable -->",
    ];
    let masks = rule_masks(&lines, &[false, true, false, false, false])?;
    assert_eq!(names(&masks[1]), ["zh-typography-4"]);
    assert!(masks[2].is_empty());
    assert!(masks[3].is_empty());
    assert!(masks[4].is_empty());
    Ok(())
}

#[test]
fn unknown_ids_report_source_order_and_one_based_line() -> Result<(), &'static str> {
    let Err(error) = rule_masks(
        &["plain", "<!-- limae-disable fake, zh-typography-4 fake -->"],
        &[false, false],
    ) else {
        return Err("unknown ids must fail");
    };
    assert_eq!(error.line(), 2);
    assert_eq!(error.unknown_ids(), ["fake", "fake"]);
    assert!(error
        .message()
        .starts_with("2: unknown rule id(s) fake, fake;"));
    Ok(())
}
