//! The built-in name-transformation plugins: their descriptors, and the
//! normalization that cuts a plugin's code out of the script file it is
//! embedded in.
//!
//! The engine never runs plugin code; it only carries the descriptors, so
//! that a presentation layer can compute target paths with them. The script
//! texts are handed in by the caller, which reads them from wherever they
//! are kept.

use vstd::prelude::*;

use crate::config::{ConfigPlugin, ConfigPluginOption};
use crate::text::{find_from, find_str, replace_spec, replace_str, trim_spec, trim_str};

verus! {

/// The line that opens the plugin body inside a script file.
pub open spec fn start_marker() -> Seq<char> {
    "\n  // Plugin Start\n"@
}

/// The line that closes the plugin body inside a script file.
pub open spec fn end_marker() -> Seq<char> {
    "\n  // Plugin End\n"@
}

/// The dedent step of normalization replaces this ...
pub open spec fn dedent_from() -> Seq<char> {
    "\n  "@
}

/// ... by this.
pub open spec fn dedent_to() -> Seq<char> {
    "\n"@
}

/// Whether a script holds a plugin body: both markers occur, and the body
/// between them is not empty.
pub open spec fn normalizable(code: Seq<char>) -> bool {
    &&& find_from(code, start_marker(), 0) is Some
    &&& find_from(code, end_marker(), 0) is Some
    &&& find_from(code, end_marker(), 0)->Some_0 > find_from(code, start_marker(), 0)->Some_0
        + start_marker().len()
}

/// The plugin body of a script: what stands between the two markers, save
/// its first character, trimmed, and dedented by one level.
pub open spec fn normalize_spec(code: Seq<char>) -> Seq<char> {
    let start = find_from(code, start_marker(), 0)->Some_0 + start_marker().len();
    let end = find_from(code, end_marker(), 0)->Some_0;
    replace_spec(trim_spec(code.subrange(start + 1, end)), dedent_from(), dedent_to())
}

/// Cuts the plugin body out of a script, as `normalize_spec`: the text
/// between the start and end markers, trimmed and dedented.
pub fn normalize_code(code: &str) -> (r: String)
    requires
        normalizable(code@),
    ensures
        r@ == normalize_spec(code@),
{
    let start_lit = "\n  // Plugin Start\n";
    let end_lit = "\n  // Plugin End\n";
    proof {
        reveal_strlit("\n  // Plugin Start\n");
        reveal_strlit("\n  // Plugin End\n");
        reveal_strlit("\n  ");
        reveal_strlit("\n");
    }
    let start_len = start_lit.unicode_len();
    let s_idx: usize = match find_str(code, start_lit) {
        Some(i) => i,
        None => {
            proof {
                assert(false);
            }
            0
        },
    };
    let e_idx: usize = match find_str(code, end_lit) {
        Some(i) => i,
        None => {
            proof {
                assert(false);
            }
            0
        },
    };
    proof {
        crate::text::lemma_find_from_bounds(code@, end_marker(), 0);
        crate::text::lemma_find_from_bounds(code@, start_marker(), 0);
    }
    let body = code.substring_char(s_idx + start_len + 1, e_idx);
    proof {
        assert(body@ =~= code@.subrange(
            find_from(code@, start_marker(), 0)->Some_0 + start_marker().len() + 1,
            find_from(code@, end_marker(), 0)->Some_0,
        ));
    }
    let trimmed = trim_str(body);
    replace_str(trimmed.as_str(), "\n  ", "\n")
}

/// The names of the built-in plugins, in catalog order.
pub fn get_built_in_plugin_name_set() -> (r: Vec<String>)
    ensures
        crate::text::str_views(r@) =~= seq![
            "Dot.Case"@,
            "To lower case"@,
            "To Sequence"@,
            "To UPPER CASE"@,
        ],
{
    let mut names: Vec<String> = Vec::new();
    names.push(String::from_str("Dot.Case"));
    names.push(String::from_str("To lower case"));
    names.push(String::from_str("To Sequence"));
    names.push(String::from_str("To UPPER CASE"));
    names
}

/// The built-in plugin catalog, built from the four script texts. Each
/// descriptor carries its identity, display name, description, normalized
/// code, and the options its code reads, with their default values.
pub fn get_built_in_plugins(
    dot_case_script: &str,
    to_lower_case_script: &str,
    to_sequence_script: &str,
    to_upper_case_script: &str,
) -> (r: Vec<ConfigPlugin>)
    requires
        normalizable(dot_case_script@),
        normalizable(to_lower_case_script@),
        normalizable(to_sequence_script@),
        normalizable(to_upper_case_script@),
    ensures
        r@.len() == 4,
        r@[0].code@ == normalize_spec(dot_case_script@),
        r@[0].id@ == "4eec0c65-8267-4824-a8c0-1851b9858a81"@,
        r@[0].name@ == "Dot.Case"@,
        r@[0].options@.len() == 1,
        r@[0].options@[0].name@ == "separator"@,
        r@[0].options@[0].default_value@ == "."@,
        r@[1].code@ == normalize_spec(to_lower_case_script@),
        r@[1].id@ == "7c857ca3-d26e-45bb-adf7-a1800f3691b1"@,
        r@[1].name@ == "To lower case"@,
        r@[1].options@.len() == 2,
        r@[1].options@[0].name@ == "includeName"@,
        r@[1].options@[0].default_value@ == "true"@,
        r@[1].options@[1].name@ == "includeExtension"@,
        r@[1].options@[1].default_value@ == "false"@,
        r@[2].code@ == normalize_spec(to_sequence_script@),
        r@[2].id@ == "2dd17cfc-ecb3-4aad-bcbb-c8f59cf3dfe3"@,
        r@[2].name@ == "To Sequence"@,
        r@[2].options@.len() == 6,
        r@[2].options@[0].name@ == "prefix"@,
        r@[2].options@[0].default_value@ == ""@,
        r@[2].options@[1].name@ == "suffix"@,
        r@[2].options@[1].default_value@ == ""@,
        r@[2].options@[2].name@ == "startAt"@,
        r@[2].options@[2].default_value@ == "1"@,
        r@[2].options@[3].name@ == "stepBy"@,
        r@[2].options@[3].default_value@ == "1"@,
        r@[2].options@[4].name@ == "padStart"@,
        r@[2].options@[4].default_value@ == "2"@,
        r@[2].options@[5].name@ == "padString"@,
        r@[2].options@[5].default_value@ == "0"@,
        r@[3].code@ == normalize_spec(to_upper_case_script@),
        r@[3].id@ == "afa82b1a-43de-439e-9f47-b6a666e40511"@,
        r@[3].name@ == "To UPPER CASE"@,
        r@[3].options@.len() == 2,
        r@[3].options@[0].name@ == "includeName"@,
        r@[3].options@[0].default_value@ == "true"@,
        r@[3].options@[1].name@ == "includeExtension"@,
        r@[3].options@[1].default_value@ == "false"@,
{
    let mut dot_case_options: Vec<ConfigPluginOption> = Vec::new();
    dot_case_options.push(
        ConfigPluginOption {
            default_value: String::from_str("."),
            name: String::from_str("separator"),
        },
    );
    let mut lower_options: Vec<ConfigPluginOption> = Vec::new();
    lower_options.push(
        ConfigPluginOption {
            default_value: String::from_str("true"),
            name: String::from_str("includeName"),
        },
    );
    lower_options.push(
        ConfigPluginOption {
            default_value: String::from_str("false"),
            name: String::from_str("includeExtension"),
        },
    );
    let mut sequence_options: Vec<ConfigPluginOption> = Vec::new();
    sequence_options.push(
        ConfigPluginOption {
            default_value: String::from_str(""),
            name: String::from_str("prefix"),
        },
    );
    sequence_options.push(
        ConfigPluginOption {
            default_value: String::from_str(""),
            name: String::from_str("suffix"),
        },
    );
    sequence_options.push(
        ConfigPluginOption {
            default_value: String::from_str("1"),
            name: String::from_str("startAt"),
        },
    );
    sequence_options.push(
        ConfigPluginOption {
            default_value: String::from_str("1"),
            name: String::from_str("stepBy"),
        },
    );
    sequence_options.push(
        ConfigPluginOption {
            default_value: String::from_str("2"),
            name: String::from_str("padStart"),
        },
    );
    sequence_options.push(
        ConfigPluginOption {
            default_value: String::from_str("0"),
            name: String::from_str("padString"),
        },
    );
    let mut upper_options: Vec<ConfigPluginOption> = Vec::new();
    upper_options.push(
        ConfigPluginOption {
            default_value: String::from_str("true"),
            name: String::from_str("includeName"),
        },
    );
    upper_options.push(
        ConfigPluginOption {
            default_value: String::from_str("false"),
            name: String::from_str("includeExtension"),
        },
    );
    let mut plugins: Vec<ConfigPlugin> = Vec::new();
    plugins.push(
        ConfigPlugin {
            code: normalize_code(dot_case_script),
            description: String::from_str(
                "Capitalize every word of the file name and replace special characters with a given separator. The default separator is dot.",
            ),
            id: String::from_str("4eec0c65-8267-4824-a8c0-1851b9858a81"),
            name: String::from_str("Dot.Case"),
            options: dot_case_options,
        },
    );
    plugins.push(
        ConfigPlugin {
            code: normalize_code(to_lower_case_script),
            description: String::from_str(
                "Convert all characters of the file name to lowercase.",
            ),
            id: String::from_str("7c857ca3-d26e-45bb-adf7-a1800f3691b1"),
            name: String::from_str("To lower case"),
            options: lower_options,
        },
    );
    plugins.push(
        ConfigPlugin {
            code: normalize_code(to_sequence_script),
            description: String::from_str(
                "Convert the file name to a sequence with prefix and suffix.",
            ),
            id: String::from_str("2dd17cfc-ecb3-4aad-bcbb-c8f59cf3dfe3"),
            name: String::from_str("To Sequence"),
            options: sequence_options,
        },
    );
    plugins.push(
        ConfigPlugin {
            code: normalize_code(to_upper_case_script),
            description: String::from_str(
                "Convert all characters of the file name to uppercase.",
            ),
            id: String::from_str("afa82b1a-43de-439e-9f47-b6a666e40511"),
            name: String::from_str("To UPPER CASE"),
            options: upper_options,
        },
    );
    plugins
}

} // verus!
