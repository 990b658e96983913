use bundler::config::{Config, MergeMode, ModuleFormat};
use bundler::error::ConfigError;

fn config(merge_mode: MergeMode) -> Config {
    Config { merge_mode, inline_dynamic_imports: false, module_format: ModuleFormat::EsModule }
}

fn entries(names: &[&str]) -> Vec<(String, String)> {
    names.iter().map(|n| (n.to_string(), format!("./{}", n))).collect()
}

#[test]
fn settings_that_fit_are_accepted() {
    assert_eq!(config(MergeMode::OneBundle).validate(&entries(&["a"])), None);
    assert_eq!(config(MergeMode::CodeSplit).validate(&entries(&["a"])), None);
    assert_eq!(config(MergeMode::CodeSplit).validate(&entries(&["a", "b", "c"])), None);
}

#[test]
fn entries_are_needed() {
    assert_eq!(config(MergeMode::OneBundle).validate(&entries(&[])), Some(ConfigError::NoEntries));
    assert_eq!(config(MergeMode::CodeSplit).validate(&entries(&[])), Some(ConfigError::NoEntries));
}

#[test]
fn several_entries_fit_either_mode() {
    assert_eq!(config(MergeMode::OneBundle).validate(&entries(&["a", "b"])), None);
    assert_eq!(
        config(MergeMode::OneBundle).validate(&entries(&["a", "a"])),
        Some(ConfigError::DuplicateEntryName)
    );
}

#[test]
fn entry_names_differ() {
    assert_eq!(
        config(MergeMode::CodeSplit).validate(&entries(&["a", "b", "a"])),
        Some(ConfigError::DuplicateEntryName)
    );
    // Two names for one specifier are in order.
    let same = vec![("a".to_string(), "./x".to_string()), ("b".to_string(), "./x".to_string())];
    assert_eq!(config(MergeMode::CodeSplit).validate(&same), None);
}
