use limae::markdown::{claim, pair, quote_spans, LineProtection, Markdown};

#[test]
fn a_zero_width_match_is_exempt_at_either_end_and_a_consuming_one_on_overlap() {
    let inline = LineProtection::Inline {
        code: vec![3..6],
        prose: vec![10..12],
    };
    assert!(inline.is_exempt(3..3));
    assert!(inline.is_exempt(6..6));
    assert!(!inline.is_exempt(7..7));
    assert!(inline.is_exempt(5..8));
    assert!(!inline.is_exempt(6..10));
    assert!(inline.is_exempt(11..20));
    assert!(LineProtection::Verbatim.is_exempt(0..1));
}

#[test]
fn a_backtick_run_pairs_with_the_next_run_of_its_length() {
    // `a` ``b`` with one unpaired run after.
    let runs = [(0, 1), (2, 3), (4, 6), (7, 9), (10, 11)];
    let (spans, unpaired) = pair(&runs);
    assert_eq!(spans, vec![1..2, 6..7]);
    assert!(unpaired);
    let (spans, unpaired) = pair(&[(0, 2), (3, 4), (5, 7)]);
    assert_eq!(spans, vec![2..5]);
    assert!(!unpaired);
}

#[test]
fn a_span_is_claimed_only_where_nothing_is_exempt_yet() {
    let mut prose = vec![10..12];
    claim(0..3, &[4..6], &mut prose);
    claim(5..7, &[4..6], &mut prose);
    claim(11..13, &[4..6], &mut prose);
    claim(8..8, &[4..6], &mut prose);
    assert_eq!(prose, vec![10..12, 0..3]);
}

#[test]
fn a_quotation_with_kana_in_it_is_exempt_and_one_without_is_not() {
    let line = "他说「すごい」和「好的」。";
    let spans = quote_spans(line, &[]);
    let start = "他说「".len();
    assert_eq!(spans, vec![start..start + "すごい".len()]);
    // Nested quotations pair with their own closers.
    let nested = "「あ「い」う」";
    assert_eq!(quote_spans(nested, &[]), vec![3..nested.len() - 3]);
    // An opener inside code is not an opener.
    let coded = "`「あ」`";
    assert!(quote_spans(coded, &[1..coded.len() - 1]).is_empty());
    // An opener that never closes is ordinary text.
    assert!(quote_spans("「あ", &[]).is_empty());
}

fn inline(protection: &LineProtection) -> (Vec<std::ops::Range<usize>>, Vec<std::ops::Range<usize>>) {
    match protection {
        LineProtection::Inline { code, prose } => (code.clone(), prose.clone()),
        LineProtection::Verbatim => panic!("expected an inline container"),
    }
}

#[test]
fn a_code_span_that_crosses_a_line_break_protects_both_line_edges() {
    let lines = ["前🙂`", "`后文A"];
    let protection = Markdown::new().unwrap().protect(&lines);
    assert_eq!(protection.len(), 2);
    let (code, prose) = inline(&protection[0]);
    assert_eq!(code, vec![lines[0].len()..lines[0].len()]);
    assert!(prose.is_empty());
    assert!(!protection[1].is_exempt(1..lines[1].len()));
}

#[test]
fn fences_are_verbatim_and_blank_lines_have_nothing_exempt() {
    let lines = ["正文", "", "```", "code `x`", "```", "后文"];
    let protection = Markdown::new().unwrap().protect(&lines);
    assert_eq!(protection.len(), lines.len());
    assert_eq!(protection[1], LineProtection::Inline { code: Vec::new(), prose: Vec::new() });
    assert_eq!(protection[2], LineProtection::Verbatim);
    assert_eq!(protection[3], LineProtection::Verbatim);
    assert_eq!(protection[4], LineProtection::Verbatim);
    assert_eq!(protection[5], LineProtection::Inline { code: Vec::new(), prose: Vec::new() });
}

#[test]
fn destinations_urls_and_kana_quotations_are_prose_spans_in_order() {
    let line = "见[文档](https://a.example/x)和「すごい」以及 https://b.example/y。";
    let protection = Markdown::new().unwrap().protect(&[line]);
    let (code, prose) = inline(&protection[0]);
    assert!(code.is_empty());
    let destination = line.find("https://a").unwrap();
    let quote = line.find("すごい").unwrap();
    let url = line.find("https://b").unwrap();
    assert_eq!(
        prose,
        vec![
            destination..destination + "https://a.example/x".len(),
            quote..quote + "すごい".len(),
            url..url + "https://b.example/y".len(),
        ]
    );
}

#[test]
fn a_url_loses_its_trailing_punctuation_and_one_glued_to_a_word_is_no_url() {
    let line = "see https://a.example/x). xhttps://b.example";
    let protection = Markdown::new().unwrap().protect(&[line]);
    let (_, prose) = inline(&protection[0]);
    let url = line.find("https://a").unwrap();
    assert_eq!(prose, vec![url..url + "https://a.example/x".len()]);
}

#[test]
fn a_quotation_is_exempt_around_the_code_it_holds() {
    let line = "「あ`x`い」";
    let protection = Markdown::new().unwrap().protect(&[line]);
    let (code, prose) = inline(&protection[0]);
    let tick = line.find('`').unwrap();
    assert_eq!(code, vec![tick + 1..tick + 2]);
    let open = "「".len();
    let close = line.len() - "」".len();
    assert_eq!(prose, vec![open..tick + 1, tick + 2..close]);
}

#[test]
fn a_heading_is_a_paragraph_of_its_own() {
    let lines = ["# 标题 `a", "正文 `b"];
    let protection = Markdown::new().unwrap().protect(&lines);
    // The heading closes its paragraph, so the two backticks do not pair.
    assert!(inline(&protection[0]).0.is_empty());
    assert!(inline(&protection[1]).0.is_empty());
}

#[test]
fn a_span_left_open_by_the_last_paragraph_is_reported() {
    let markdown = Markdown::new().unwrap();
    assert!(markdown.unclosed_span(&["正文 `代码"]));
    assert!(!markdown.unclosed_span(&["正文 `代码`"]));
    assert!(!markdown.unclosed_span(&["正文 `代码", ""]));
    assert!(!markdown.unclosed_span(&["```", "`"]));
    assert!(!markdown.unclosed_span(&[]));
    assert!(markdown.unclosed_span(&["a ``b`", "c"]));
}
