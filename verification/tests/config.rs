use limae::config::{
    line_column, resolve, tool_table, CliOverrides, ConfigValue, Maturity, ResolvedConfig, RuleId, RuleMask, Severity,
};

fn text(value: &str) -> ConfigValue {
    ConfigValue::Text(value.to_owned())
}

/// A configuration with one severity override and one exempt unit, as a
/// configuration file would give it.
fn configured() -> Result<ResolvedConfig, &'static str> {
    let table = ConfigValue::Table(vec![
        (
            "severity".to_owned(),
            ConfigValue::Table(vec![("zh-typography-5".to_owned(), text("warning"))]),
        ),
        ("skip_zh_units".to_owned(), text("年")),
    ]);
    resolve(CliOverrides::default(), Some(("limae.toml".to_owned(), table)))
        .map_err(|_| "the table must resolve")
}

#[test]
fn rule_masks_preserve_other_settings_and_borrow_when_empty() -> Result<(), &'static str> {
    let config = configured()?;

    let mut disabled = RuleMask::new();
    disabled.insert(RuleId::ZH_TYPOGRAPHY_5);
    let masked = config.without_rules(&disabled);
    assert!(!masked.is_enabled(RuleId::ZH_TYPOGRAPHY_5));
    assert_eq!(masked.severity(RuleId::ZH_TYPOGRAPHY_5), Severity::Warning);
    assert_eq!(masked.skip_zh_units(), "年");
    assert!(config.is_enabled(RuleId::ZH_TYPOGRAPHY_5));
    assert_eq!(config.severity(RuleId::ZH_TYPOGRAPHY_5), Severity::Warning);
    assert_eq!(config.skip_zh_units(), "年");

    let std::borrow::Cow::Borrowed(unmasked) = config.without_rules(&RuleMask::new()) else {
        return Err("an empty mask must borrow the original configuration");
    };
    assert!(std::ptr::eq(unmasked, &config));
    Ok(())
}

#[test]
fn a_byte_offset_is_reported_as_a_line_and_a_column_in_characters() {
    let input = "a = 1\n中文 = [\n";
    assert_eq!(line_column(input, 0), (1, 1));
    assert_eq!(line_column(input, 6), (2, 1));
    // After two three-byte characters: the third character of the line.
    assert_eq!(line_column(input, 12), (2, 3));
    // Inside a character, or past the end: the end of the text.
    assert_eq!(line_column(input, 7), (3, 1));
    assert_eq!(line_column(input, 1000), (3, 1));
}

#[test]
fn the_table_under_tool_limae_is_the_one_a_pyproject_configures() {
    let document = ConfigValue::Table(vec![
        ("project".to_string(), ConfigValue::Table(Vec::new())),
        (
            "tool".to_string(),
            ConfigValue::Table(vec![
                ("black".to_string(), ConfigValue::Other),
                ("limae".to_string(), ConfigValue::Table(vec![("enable".to_string(), ConfigValue::Boolean(true))])),
            ]),
        ),
    ]);
    match tool_table(document) {
        Some(ConfigValue::Table(entries)) => {
            assert_eq!(entries.len(), 1);
            assert_eq!(entries[0].0, "enable");
        }
        _ => panic!("the [tool.limae] table must be found"),
    }
    let no_tool = ConfigValue::Table(vec![("tool".to_string(), ConfigValue::Text("x".to_string()))]);
    assert!(tool_table(no_tool).is_none());
    let no_limae = ConfigValue::Table(vec![("tool".to_string(), ConfigValue::Table(Vec::new()))]);
    assert!(tool_table(no_limae).is_none());
}

#[test]
fn every_rule_id_names_one_rule_and_looks_it_up_again() {
    let all = RuleId::all();
    for rule in &all {
        assert_eq!(RuleId::from_name(rule.as_str()), Some(*rule));
        assert_eq!(rule.metadata().name, rule.as_str());
        for other in &all {
            assert_eq!(rule.as_str() == other.as_str(), rule == other);
        }
    }
    assert_eq!(RuleId::ZH_TYPOGRAPHY_1.as_str(), "zh-typography-1");
    assert_eq!(RuleId::ZH_WORD_2.as_str(), "zh-word-2");
}

#[test]
fn the_stable_rules_are_the_typography_rules() {
    for rule in RuleId::all() {
        let metadata = rule.metadata();
        let stable = metadata.maturity == Maturity::Stable;
        assert_eq!(stable, rule.as_str().starts_with("zh-typography-"));
        if stable {
            assert_eq!(metadata.default_severity, Severity::Error);
            assert_eq!(metadata.default_enabled, rule != RuleId::ZH_TYPOGRAPHY_9);
        } else {
            assert!(!metadata.default_enabled);
            assert_eq!(metadata.default_severity, Severity::Warning);
        }
    }
}
