use batch_file_rename::config::{merge_built_in_plugins, Config, ConfigPlugin};
use batch_file_rename::plugins::{
    get_built_in_plugin_name_set, get_built_in_plugins, normalize_code,
};

fn sample_script(body: &str) -> String {
    format!("function main() {{\n  // Plugin Start\n{}\n  // Plugin End\n}}", body)
}

fn expected_normalized(script: &str) -> String {
    let start = script.find("\n  // Plugin Start\n").unwrap() + "\n  // Plugin Start\n".len();
    let end = script.find("\n  // Plugin End\n").unwrap();
    script[(start + 1)..end].trim().replace("\n  ", "\n")
}

#[test]
fn default_config_holds_the_stock_filter() {
    let c = Config::default();
    assert_eq!(c.depth, -1);
    assert!(c.filter_by_extensions);
    assert!(!c.include_directories);
    assert!(c.plugins.is_empty());
    let exts: Vec<&str> = c.extensions.iter().map(|s| s.as_str()).collect();
    assert_eq!(
        exts,
        vec![
            "mp3", "mp4", "avi", "flv", "mkv", "ogg", "webm", "wmv", "ape", "mp3", "aac",
            "flac", "mka", "m4a"
        ]
    );
}

#[test]
fn new_keeps_a_loaded_config_and_falls_back_to_default() {
    let mut loaded = Config::default();
    loaded.depth = 3;
    loaded.include_directories = true;
    let kept = Config::new(Some(loaded));
    assert_eq!(kept.depth, 3);
    assert!(kept.include_directories);
    let fresh = Config::new(None);
    assert_eq!(fresh.depth, -1);
    assert!(!fresh.include_directories);
}

#[test]
fn normalize_code_cuts_trims_and_dedents() {
    let script = sample_script("  let a = 1;\n  let b = 2;");
    let normalized = normalize_code(&script);
    assert_eq!(normalized, expected_normalized(&script));
    assert_eq!(normalized, "let a = 1;\nlet b = 2;");
}

#[test]
fn built_in_plugin_names_are_the_catalog() {
    let names = get_built_in_plugin_name_set();
    assert_eq!(
        names,
        vec![
            "Dot.Case".to_string(),
            "To lower case".to_string(),
            "To Sequence".to_string(),
            "To UPPER CASE".to_string()
        ]
    );
}

fn catalog() -> Vec<ConfigPlugin> {
    let a = sample_script("  dot();");
    let b = sample_script("  lower();");
    let c = sample_script("  sequence();");
    let d = sample_script("  upper();");
    get_built_in_plugins(&a, &b, &c, &d)
}

#[test]
fn built_in_plugins_carry_their_descriptors() {
    let ps = catalog();
    assert_eq!(ps.len(), 4);
    assert_eq!(ps[0].name, "Dot.Case");
    assert_eq!(ps[0].id, "4eec0c65-8267-4824-a8c0-1851b9858a81");
    assert_eq!(ps[0].code, "dot();");
    assert_eq!(ps[0].options.len(), 1);
    assert_eq!(ps[0].options[0].name, "separator");
    assert_eq!(ps[0].options[0].default_value, ".");
    assert_eq!(ps[1].name, "To lower case");
    assert_eq!(ps[1].options.len(), 2);
    assert_eq!(ps[1].options[0].name, "includeName");
    assert_eq!(ps[1].options[0].default_value, "true");
    assert_eq!(ps[2].name, "To Sequence");
    assert_eq!(ps[2].options.len(), 6);
    assert_eq!(ps[2].options[2].name, "startAt");
    assert_eq!(ps[2].options[2].default_value, "1");
    assert_eq!(ps[3].name, "To UPPER CASE");
    assert_eq!(ps[3].code, "upper();");
}

#[test]
fn merge_adds_only_the_missing_plugins() {
    let ps = catalog();
    let mut config = Config::default();
    config.plugins.push(ps[1].clone());
    let (merged, added) = merge_built_in_plugins(config, &ps);
    assert!(added);
    let names: Vec<&str> = merged.plugins.iter().map(|p| p.name.as_str()).collect();
    assert_eq!(
        names,
        vec!["To lower case", "Dot.Case", "To Sequence", "To UPPER CASE"]
    );
    let (again, added_again) = merge_built_in_plugins(merged, &ps);
    assert!(!added_again);
    assert_eq!(again.plugins.len(), 4);
}
