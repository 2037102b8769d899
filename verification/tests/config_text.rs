use limae::config::ConfigValue;
use limae::config_text::{config_document, found_config, ConfigFile};

fn entries(value: &ConfigValue) -> &[(String, ConfigValue)] {
    match value {
        ConfigValue::Table(entries) => entries,
        _ => panic!("a table was expected"),
    }
}

#[test]
fn a_document_keeps_strings_booleans_arrays_and_tables() {
    let document = config_document("enable_experimental = true\ndisable = [\"zh-typography-1\"]\nlimit = 3\n")
        .unwrap_or_else(|_| panic!("the document is TOML"));
    let entries = entries(&document);
    assert_eq!(entries.len(), 3);
    let key = |name: &str| entries.iter().find(|(key, _)| key == name).map(|(_, value)| value);
    assert!(matches!(key("enable_experimental"), Some(ConfigValue::Boolean(true))));
    match key("disable") {
        Some(ConfigValue::Array(items)) => {
            assert!(matches!(&items[..], [ConfigValue::Text(text)] if text == "zh-typography-1"))
        }
        _ => panic!("the disable list is an array"),
    }
    assert!(matches!(key("limit"), Some(ConfigValue::Other)));
}

#[test]
fn a_refused_text_is_blamed_on_its_line() {
    let Err(error) = config_document("a = 1\nb = ]\n") else {
        panic!("a stray bracket is not TOML");
    };
    assert_eq!(error.line, 2);
    assert!(error.column >= 1);
}

#[test]
fn a_pyproject_contributes_only_its_tool_table() {
    let without = found_config(ConfigFile::Pyproject, "[project]\nname = \"x\"\n")
        .unwrap_or_else(|_| panic!("the document is TOML"));
    assert!(without.is_none());
    let with = found_config(ConfigFile::Pyproject, "[tool.limae]\nskip_zh_units = \"ms\"\n")
        .unwrap_or_else(|_| panic!("the document is TOML"));
    match with {
        Some(ConfigValue::Table(entries)) => {
            assert_eq!(entries.len(), 1);
            assert_eq!(entries[0].0, "skip_zh_units");
        }
        _ => panic!("the tool table is found"),
    }
    let whole = found_config(ConfigFile::Standalone, "[tool.limae]\n")
        .unwrap_or_else(|_| panic!("the document is TOML"));
    assert!(matches!(whole, Some(ConfigValue::Table(_))));
}
