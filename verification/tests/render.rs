use limae::hook::render::{
    changes, count, flat, folded, opcodes, prose_length, shown, trailing_newlines, Fixes, Tag,
    BLOCK_GAP, MIN_CHARS, TYPOGRAPHY_ONLY, UNCHANGED,
};

fn characters(text: &str) -> Vec<char> {
    text.chars().collect()
}

#[test]
fn a_message_is_measured_by_its_prose_and_not_by_its_code() {
    let prose = "正文一句话。";
    let fenced = "```sh\necho 这一行不算数，它在围栏里，长得很\n```\n";
    assert_eq!(prose_length(prose), 6);
    // The fence markers are not counted either, so a message that is nothing
    // but a code block counts zero rather than counting its markers.
    assert_eq!(prose_length(&format!("{fenced}{prose}")), 6);
    assert_eq!(prose_length(fenced), 0);
    assert_eq!(prose_length("~~~\nx\n~~~"), 0);
}

#[test]
fn whitespace_is_not_prose_however_it_is_spelled() {
    // Python counts the file/group/record/unit separators as whitespace and
    // `char::is_whitespace` does not. A message padded with them would be
    // polished on one side of the port and skipped on the other.
    assert_eq!(prose_length("a b\tc\u{a0}d\u{1f}e\u{3000}f"), 6);
    assert_eq!(prose_length("   \t\u{1c}\u{2028}\u{85} "), 0);
}

#[test]
fn the_threshold_is_a_threshold_and_not_a_direction() {
    // Both sides of it, because a comparison with the wrong strictness — or
    // one that counts the fenced characters — is wrong on exactly one of these.
    let short = "字".repeat(MIN_CHARS - 1);
    let long = "字".repeat(MIN_CHARS);
    assert!(prose_length(&short) < MIN_CHARS);
    assert!(prose_length(&long) >= MIN_CHARS);
    let padded = format!("```\n{}\n```\n{long}", "x".repeat(500));
    assert_eq!(prose_length(&padded), MIN_CHARS);
}

#[test]
fn the_newlines_a_message_ends_on_are_counted_and_nothing_else_is() {
    // The caller subtracts what the host has already painted from the gap it
    // wants, so a trailing space is not a line that reached the screen.
    assert_eq!(trailing_newlines("话\n\n"), 2);
    assert_eq!(trailing_newlines("话"), 0);
    assert_eq!(trailing_newlines("话\n \n"), 1);
    assert_eq!(trailing_newlines("话\n  "), 0);
    assert_eq!(trailing_newlines("\n\n\n"), 3);
    assert_eq!(BLOCK_GAP, 2);
}

#[test]
fn a_rewrite_that_moved_only_a_punctuation_width_is_told_from_one_that_moved_a_word() {
    // The two answers the block gives when it prints no pairs are different
    // statements, and an implementation that cannot tell them apart passes
    // every test that only asks "was there a change".
    let body = "这里有（注）一处，正文继续写下去，后面还有别的话。";
    let widened = body.replace('（', "(").replace('）', ")");
    assert_ne!(widened, body);
    // Nothing to show: the deterministic rules own the width.
    assert!(changes(body, &widened).is_empty());
    // ... and that is not the same as the two texts being equal, which is what
    // the caller checks first to say `UNCHANGED` instead of `TYPOGRAPHY_ONLY`.
    assert!(changes(body, body).is_empty());
    assert_ne!(UNCHANGED, TYPOGRAPHY_ONLY);
}

#[test]
fn a_bracket_the_model_replaced_or_dropped_is_not_called_typography() {
    // The rules pick a width. They do not delete a bracket and do not turn one
    // kind into another, so neither of these may be folded away.
    let body = "这里有 (注) 一处，正文继续写下去，后面还有别的话。";
    assert!(!changes(body, &body.replace("(注)", "「注」")).is_empty());
    assert!(!changes(body, &body.replace("(注)", "注")).is_empty());
    // Whitespace alone is the rules' too.
    assert!(changes(body, &body.replace(" (注) ", "(注)")).is_empty());
}

#[test]
fn folding_settles_the_comparison_and_never_reaches_the_screen() {
    // The normal form exists to decide whether a change is worth showing. If it
    // reached the pairs, the reader would be shown a sentence nobody wrote:
    // half-width punctuation where the message has full-width, and no spaces.
    let before = "他说（这一段）要改一个词，后面继续写下去，还有更多的话。";
    let after = before.replace("要改一个词", "要换一个词");
    let rendered = changes(before, &after);
    assert!(
        rendered.contains('（') && rendered.contains('）'),
        "{rendered}"
    );
    assert!(rendered.contains('，'), "{rendered}");
    assert!(!rendered.contains('('), "{rendered}");
    // The excerpts themselves, not their normal forms.
    assert!(
        rendered.contains("要改一个词") && rendered.contains("要换一个词"),
        "{rendered}"
    );
}

#[test]
fn an_excerpt_that_straddles_a_line_break_is_shown_on_one_line() {
    let before = "前面这一句写完了，\n然后另起一行接着写下去。";
    let after = before.replace("接着", "继续");
    let rendered = changes(before, &after);
    assert_eq!(rendered.lines().count(), 2, "{rendered}");
    assert!(
        rendered.contains("写完了， 然后另起") || rendered.contains("， 然后"),
        "{rendered}"
    );
}

#[test]
fn the_count_is_how_many_changes_there_were_and_not_whether_there_were_any() {
    // An implementation that reported one change for any non-empty set passes
    // every single-change test there is.
    let before = "第一处要改的词在这里，中间隔着足够长的一段话，第二处要改的词在那里。";
    let one = before.replace("第一处要改", "第一处会改");
    let two = one.replace("第二处要改", "第二处会改");
    assert_eq!(count(&changes(before, &one)), 1);
    assert_eq!(count(&changes(before, &two)), 2);
    assert_eq!(count(&changes(before, before)), 0);
}

#[test]
fn two_edits_within_a_few_characters_read_as_one() {
    // Two changes closer than `NEAR` are one edit to a reader, and printing
    // them as two would inflate the count on the screen. Both sides of the
    // distance, so that a merge rule of any other width is wrong on one of
    // them: six characters apart is one change, seven is two.
    let pair = |gap: &str| {
        let before = format!("开头这一段话之后，甲{gap}乙，后面还有别的话。");
        let after = before.replace('甲', "丙").replace('乙', "丁");
        count(&changes(&before, &after))
    };
    assert_eq!(pair("六个字的间隔"), 1);
    assert_eq!(pair("七个字的间隔啊"), 2);
}

#[test]
fn a_change_is_shown_with_its_context_and_the_ellipsis_says_there_is_more() {
    let before = "这是很长的一段开头文字，中间这个词要改掉，后面还有很长的一段文字收尾。";
    let after = before.replace("要改掉", "要换掉");
    let rendered = changes(before, &after);
    assert!(rendered.starts_with("原 …"), "{rendered}");
    assert!(rendered.contains('…'), "{rendered}");
    // How much context, exactly: ten characters of the sentence are kept on
    // the near side, and the ellipsis appears only once something was elided.
    let ten = "零一二三四五六七八九";
    let before = format!("{ten}改这个词，后面还有很长的一段文字收尾在这里。");
    let rendered = changes(&before, &before.replace("改这个词", "换这个词"));
    assert!(
        rendered.starts_with(&format!("原 {ten}改这个词")),
        "{rendered}"
    );
    let before = format!("补{before}");
    let rendered = changes(&before, &before.replace("改这个词", "换这个词"));
    assert!(
        rendered.starts_with(&format!("原 …{ten}改这个词")),
        "{rendered}"
    );
}

#[test]
fn every_rewrite_is_offered_to_the_fixer_and_the_failure_is_named() {
    let answers = vec!["甲".to_owned(), "乙".to_owned()];
    let mut seen: Vec<String> = Vec::new();
    let (display, fixes) = shown(&answers, |answer| {
        seen.push(answer.to_owned());
        if answer == "甲" {
            Err("crashed".to_owned())
        } else {
            Ok(format!("{answer}!"))
        }
    });
    // The second column is still fixed: two rewrites shown side by side, one of
    // them quietly skipping the rules, is a comparison of two pipelines.
    assert_eq!(seen, answers);
    // The one whose fix would not run is passed through as the model wrote it.
    assert_eq!(display, vec!["甲".to_owned(), "乙!".to_owned()]);
    assert_eq!(fixes, Fixes::Failed("crashed".to_owned()));
}

#[test]
fn a_fixer_that_changed_something_is_told_from_one_that_had_nothing_to_do() {
    // Which models need the rules to clean up after them is a selection signal,
    // so "ran and fixed" and "ran and found nothing" are different answers.
    let answers = vec!["原样".to_owned()];
    let (display, fixes) = shown(&answers, |answer| Ok(answer.to_owned()));
    assert_eq!(display, answers);
    assert_eq!(fixes, Fixes::Clean);
    let (display, fixes) = shown(&answers, |answer| Ok(format!("{answer}。")));
    assert_eq!(display, vec!["原样。".to_owned()]);
    assert_eq!(fixes, Fixes::Repaired);
}

#[test]
fn the_first_reason_is_the_one_reported_and_the_order_is_kept() {
    let answers = vec!["一".to_owned(), "二".to_owned(), "三".to_owned()];
    let (display, fixes) = shown(&answers, |answer| match answer {
        "二" => Err("first".to_owned()),
        "三" => Err("second".to_owned()),
        _ => Ok(answer.to_owned()),
    });
    assert_eq!(display, answers);
    assert_eq!(fixes, Fixes::Failed("first".to_owned()));
}

#[test]
fn an_empty_turn_has_nothing_to_fix() {
    let (display, fixes) = shown(&[], |answer| Ok(answer.to_owned()));
    assert!(display.is_empty());
    assert_eq!(fixes, Fixes::Clean);
}

#[test]
fn the_opcodes_cover_both_sides_end_to_end() {
    // A hole in the coverage would drop a change without anything saying so.
    let (before, after) = ("甲乙丙丁戊", "甲庚丙丁己戊");
    let (a, b) = (characters(before), characters(after));
    let ops = opcodes(&a, &b);
    assert!(!ops.is_empty());
    let (mut i, mut j) = (0, 0);
    for op in &ops {
        assert_eq!((op.i1, op.j1), (i, j), "{ops:?}");
        assert!(op.i2 >= op.i1 && op.j2 >= op.j1);
        if op.tag == Tag::Equal {
            assert_eq!(a[op.i1..op.i2], b[op.j1..op.j2]);
        }
        i = op.i2;
        j = op.j2;
    }
    assert_eq!((i, j), (a.len(), b.len()));
}

#[test]
fn an_excerpt_is_flattened_onto_one_line_and_folded_for_the_comparison() {
    assert_eq!(flat("  甲 \n\t乙  "), "甲 乙");
    assert_eq!(flat("\u{1f}"), "");
    assert_eq!(folded("（注） ，。；：！？"), "(注),.;:!?");
    assert_eq!(folded("a\u{3000}b"), "ab");
}

#[test]
fn a_one_character_rewrite_is_one_replace_between_two_equal_spans() {
    let a: Vec<char> = "abcd".chars().collect();
    let b: Vec<char> = "abxd".chars().collect();
    let spelled: Vec<(&str, usize, usize, usize, usize)> = opcodes(&a, &b)
        .iter()
        .map(|op| (op.tag.as_str(), op.i1, op.i2, op.j1, op.j2))
        .collect();
    assert_eq!(
        spelled,
        vec![
            ("equal", 0, 2, 0, 2),
            ("replace", 2, 3, 2, 3),
            ("equal", 3, 4, 3, 4)
        ]
    );
    assert!(opcodes(&[], &[]).is_empty());
}

#[test]
fn a_character_everywhere_in_a_long_rewrite_seeds_no_match() {
    // Above 200 characters of the rewrite, one that occurs in more than a
    // hundredth of it cannot start a match: the short run of `b` wins over the
    // longer run of `a`, which a matcher without the pruning would pick.
    let a: Vec<char> = "aaab".chars().collect();
    let b: Vec<char> = format!("b{}", "a".repeat(200)).chars().collect();
    let spelled: Vec<(Tag, usize, usize, usize, usize)> = opcodes(&a, &b)
        .iter()
        .map(|op| (op.tag, op.i1, op.i2, op.j1, op.j2))
        .collect();
    assert_eq!(
        spelled,
        vec![
            (Tag::Delete, 0, 3, 0, 0),
            (Tag::Equal, 3, 4, 0, 1),
            (Tag::Insert, 4, 4, 1, 201)
        ]
    );
    // One character shorter and nothing is pruned.
    let b: Vec<char> = format!("b{}", "a".repeat(198)).chars().collect();
    let spelled: Vec<(Tag, usize, usize, usize, usize)> = opcodes(&a, &b)
        .iter()
        .map(|op| (op.tag, op.i1, op.i2, op.j1, op.j2))
        .collect();
    assert_eq!(
        spelled,
        vec![
            (Tag::Insert, 0, 0, 0, 1),
            (Tag::Equal, 0, 3, 1, 4),
            (Tag::Replace, 3, 4, 4, 199)
        ]
    );
}

#[test]
fn one_change_is_rendered_as_two_labelled_lines() {
    let rendered = changes("甲乙丙", "甲丁丙");
    assert_eq!(rendered, "原 甲乙丙\n改 甲丁丙");
    assert_eq!(count(&rendered), 1);
    // A change that leaves nothing on the new side still names its side.
    assert_eq!(changes("甲", ""), "原 甲\n改");
}

#[test]
fn every_rendered_change_is_two_flat_lines_and_count_counts_them() {
    let cases = [
        ("今天天气很好，我们去公园散步吧。", "今天天气不错，我们去公园走走吧。"),
        ("第一句话。\n\n第二句话  有空格。", "第一句话！\n\n第二句话 没有空格。"),
        ("同样的文字。", "同样的文字。"),
        ("a", "b"),
    ];
    for (before, after) in cases {
        let rendered = changes(before, after);
        if rendered.is_empty() {
            assert_eq!(count(&rendered), 0);
            continue;
        }
        assert_eq!(rendered.trim(), rendered);
        let pieces: Vec<&str> = rendered.split("\n\n").collect();
        assert_eq!(count(&rendered), pieces.len());
        for piece in pieces {
            let lines: Vec<&str> = piece.split('\n').collect();
            assert_eq!(lines.len(), 2);
            assert!(lines[0].starts_with("原 "));
            assert!(lines[1].starts_with('改'));
            for line in lines {
                let characters: Vec<char> = line.chars().collect();
                assert!(characters.windows(2).all(|w| !(w[0].is_whitespace() && w[1].is_whitespace())));
            }
        }
    }
}
