//! The configuration the scan filter is built from, and the plugin
//! descriptors it carries.
//!
//! The engine holds no configuration of its own: a caller owns a `Config`
//! value, loads and saves it wherever it likes, and passes the filter
//! fields into the scan. The one rule the engine contributes is the merge
//! of the built-in plugin catalog into a configuration that lacks some of
//! it.

use vstd::prelude::*;

use crate::text::{str_views, vec_contains_string};

verus! {

/// One option of a plugin: its name and its default value, kept as text.
#[derive(Debug)]
pub struct ConfigPluginOption {
    pub default_value: String,
    pub name: String,
}

/// The mathematical value of a plugin option.
#[verifier::ext_equal]
pub ghost struct ConfigPluginOptionV {
    pub default_value: Seq<char>,
    pub name: Seq<char>,
}

impl View for ConfigPluginOption {
    type V = ConfigPluginOptionV;

    open spec fn view(&self) -> ConfigPluginOptionV {
        ConfigPluginOptionV { default_value: self.default_value@, name: self.name@ }
    }
}

impl Clone for ConfigPluginOption {
    fn clone(&self) -> (r: ConfigPluginOption)
        ensures
            r@ == self@,
    {
        ConfigPluginOption { default_value: self.default_value.clone(), name: self.name.clone() }
    }
}

/// One plugin descriptor: identity, display name, description, the
/// transformation code, and the options the code reads. The engine never
/// runs the code.
#[derive(Debug)]
pub struct ConfigPlugin {
    pub code: String,
    pub description: String,
    pub id: String,
    pub name: String,
    pub options: Vec<ConfigPluginOption>,
}

/// The mathematical value of a plugin descriptor.
#[verifier::ext_equal]
pub ghost struct ConfigPluginV {
    pub code: Seq<char>,
    pub description: Seq<char>,
    pub id: Seq<char>,
    pub name: Seq<char>,
    pub options: Seq<ConfigPluginOptionV>,
}

/// The views of a list of plugin options.
pub open spec fn option_views(os: Seq<ConfigPluginOption>) -> Seq<ConfigPluginOptionV> {
    os.map_values(|o: ConfigPluginOption| o@)
}

impl View for ConfigPlugin {
    type V = ConfigPluginV;

    open spec fn view(&self) -> ConfigPluginV {
        ConfigPluginV {
            code: self.code@,
            description: self.description@,
            id: self.id@,
            name: self.name@,
            options: option_views(self.options@),
        }
    }
}

/// The views of a list of plugin descriptors.
pub open spec fn plugin_views(ps: Seq<ConfigPlugin>) -> Seq<ConfigPluginV> {
    ps.map_values(|p: ConfigPlugin| p@)
}

impl Clone for ConfigPlugin {
    fn clone(&self) -> (r: ConfigPlugin)
        ensures
            r@ == self@,
    {
        let mut options: Vec<ConfigPluginOption> = Vec::new();
        let mut i: usize = 0;
        while i < self.options.len()
            invariant
                i <= self.options@.len(),
                option_views(options@) =~= option_views(self.options@).take(i as int),
            decreases self.options@.len() - i,
        {
            let ghost pre = options@;
            options.push(self.options[i].clone());
            proof {
                assert(option_views(options@) =~= option_views(pre).push(
                    self.options@[i as int]@,
                ));
                assert(option_views(self.options@).take(i + 1) =~= option_views(
                    self.options@,
                ).take(i as int).push(self.options@[i as int]@));
            }
            i = i + 1;
        }
        proof {
            let all = option_views(self.options@);
            assert(all.take(all.len() as int) =~= all);
        }
        let r = ConfigPlugin {
            code: self.code.clone(),
            description: self.description.clone(),
            id: self.id.clone(),
            name: self.name.clone(),
            options,
        };
        proof {
            assert(r@ =~= self@);
        }
        r
    }
}

/// The persisted configuration: the scan filter's inputs and the plugin
/// catalog.
#[derive(Debug)]
pub struct Config {
    pub depth: i32,
    pub extensions: Vec<String>,
    pub filter_by_extensions: bool,
    pub include_directories: bool,
    pub plugins: Vec<ConfigPlugin>,
}

/// The mathematical value of a configuration.
#[verifier::ext_equal]
pub ghost struct ConfigV {
    pub depth: int,
    pub extensions: Seq<Seq<char>>,
    pub filter_by_extensions: bool,
    pub include_directories: bool,
    pub plugins: Seq<ConfigPluginV>,
}

impl View for Config {
    type V = ConfigV;

    open spec fn view(&self) -> ConfigV {
        ConfigV {
            depth: self.depth as int,
            extensions: str_views(self.extensions@),
            filter_by_extensions: self.filter_by_extensions,
            include_directories: self.include_directories,
            plugins: plugin_views(self.plugins@),
        }
    }
}

impl Clone for Config {
    fn clone(&self) -> (r: Config)
        ensures
            r@ == self@,
    {
        let mut extensions: Vec<String> = Vec::new();
        let mut i: usize = 0;
        while i < self.extensions.len()
            invariant
                i <= self.extensions@.len(),
                str_views(extensions@) =~= str_views(self.extensions@).take(i as int),
            decreases self.extensions@.len() - i,
        {
            let ghost pre = extensions@;
            extensions.push(self.extensions[i].clone());
            proof {
                assert(str_views(extensions@) =~= str_views(pre).push(
                    self.extensions@[i as int]@,
                ));
                assert(str_views(self.extensions@).take(i + 1) =~= str_views(
                    self.extensions@,
                ).take(i as int).push(self.extensions@[i as int]@));
            }
            i = i + 1;
        }
        let mut plugins: Vec<ConfigPlugin> = Vec::new();
        let mut j: usize = 0;
        while j < self.plugins.len()
            invariant
                j <= self.plugins@.len(),
                plugin_views(plugins@) =~= plugin_views(self.plugins@).take(j as int),
            decreases self.plugins@.len() - j,
        {
            let ghost pre = plugins@;
            plugins.push(self.plugins[j].clone());
            proof {
                assert(plugin_views(plugins@) =~= plugin_views(pre).push(
                    self.plugins@[j as int]@,
                ));
                assert(plugin_views(self.plugins@).take(j + 1) =~= plugin_views(
                    self.plugins@,
                ).take(j as int).push(self.plugins@[j as int]@));
            }
            j = j + 1;
        }
        proof {
            assert(str_views(self.extensions@).take(self.extensions@.len() as int) =~= str_views(
                self.extensions@,
            ));
            assert(plugin_views(self.plugins@).take(self.plugins@.len() as int) =~= plugin_views(
                self.plugins@,
            ));
        }
        let r = Config {
            depth: self.depth,
            extensions,
            filter_by_extensions: self.filter_by_extensions,
            include_directories: self.include_directories,
            plugins,
        };
        proof {
            assert(r@ =~= self@);
        }
        r
    }
}

/// The default extension filter, as text.
pub open spec fn default_extensions() -> Seq<Seq<char>> {
    seq![
        "mp3"@,
        "mp4"@,
        "avi"@,
        "flv"@,
        "mkv"@,
        "ogg"@,
        "webm"@,
        "wmv"@,
        "ape"@,
        "mp3"@,
        "aac"@,
        "flac"@,
        "mka"@,
        "m4a"@,
    ]
}

/// What a fresh configuration holds: unlimited depth, the stock extension
/// filter switched on, directories left out, and no plugins yet (the
/// built-in catalog is merged in by `merge_built_in_plugins`).
pub open spec fn is_default_config(c: Config) -> bool {
    &&& c.depth == -1
    &&& str_views(c.extensions@) == default_extensions()
    &&& c.filter_by_extensions == true
    &&& c.include_directories == false
    &&& c.plugins@.len() == 0
}

impl Default for Config {
    fn default() -> (r: Config)
        ensures
            is_default_config(r),
    {
        let mut extensions: Vec<String> = Vec::new();
        extensions.push(String::from_str("mp3"));
        extensions.push(String::from_str("mp4"));
        extensions.push(String::from_str("avi"));
        extensions.push(String::from_str("flv"));
        extensions.push(String::from_str("mkv"));
        extensions.push(String::from_str("ogg"));
        extensions.push(String::from_str("webm"));
        extensions.push(String::from_str("wmv"));
        extensions.push(String::from_str("ape"));
        extensions.push(String::from_str("mp3"));
        extensions.push(String::from_str("aac"));
        extensions.push(String::from_str("flac"));
        extensions.push(String::from_str("mka"));
        extensions.push(String::from_str("m4a"));
        proof {
            assert(str_views(extensions@) =~= default_extensions());
        }
        Config {
            depth: -1,
            extensions,
            filter_by_extensions: true,
            include_directories: false,
            plugins: Vec::new(),
        }
    }
}

impl Config {
    /// The configuration to go on with: the loaded one where a load
    /// succeeded, and a fresh default where none was there or it could not
    /// be read.
    pub fn new(loaded: Option<Config>) -> (r: Config)
        ensures
            match loaded {
                Some(c) => r == c,
                None => is_default_config(r),
            },
    {
        match loaded {
            Some(c) => c,
            None => Config::default(),
        }
    }
}

/// The display names of a plugin list, in order.
pub open spec fn plugin_names(ps: Seq<ConfigPluginV>) -> Seq<Seq<char>> {
    ps.map_values(|p: ConfigPluginV| p.name)
}

/// The built-in plugins whose names are not among `names`, in order.
pub open spec fn missing_plugins(names: Seq<Seq<char>>, bs: Seq<ConfigPluginV>) -> Seq<
    ConfigPluginV,
>
    decreases bs.len(),
{
    if bs.len() == 0 {
        bs
    } else {
        let front = missing_plugins(names, bs.drop_last());
        if names.contains(bs.last().name) {
            front
        } else {
            front.push(bs.last())
        }
    }
}

/// Appends to a configuration every built-in plugin whose name it does not
/// carry yet, in catalog order, and says whether anything was added (so a
/// caller knows to persist the result).
#[verifier::loop_isolation(false)]
pub fn merge_built_in_plugins(config: Config, built_ins: &Vec<ConfigPlugin>) -> (r: (
    Config,
    bool,
))
    ensures
        r.0.depth == config.depth,
        str_views(r.0.extensions@) == str_views(config.extensions@),
        r.0.filter_by_extensions == config.filter_by_extensions,
        r.0.include_directories == config.include_directories,
        plugin_views(r.0.plugins@) == plugin_views(config.plugins@) + missing_plugins(
            plugin_names(plugin_views(config.plugins@)),
            plugin_views(built_ins@),
        ),
        r.1 == (missing_plugins(
            plugin_names(plugin_views(config.plugins@)),
            plugin_views(built_ins@),
        ).len() > 0),
{
    let ghost names = plugin_names(plugin_views(config.plugins@));
    let ghost bs = plugin_views(built_ins@);
    let mut known: Vec<String> = Vec::new();
    let mut i: usize = 0;
    while i < config.plugins.len()
        invariant
            i <= config.plugins@.len(),
            str_views(known@) =~= names.take(i as int),
        decreases config.plugins@.len() - i,
    {
        known.push(config.plugins[i].name.clone());
        proof {
            assert(str_views(known@) =~= names.take(i + 1));
        }
        i = i + 1;
    }
    proof {
        assert(names.take(config.plugins@.len() as int) =~= names);
    }
    let mut merged = config;
    let mut added = false;
    let ghost base = plugin_views(merged.plugins@);
    proof {
        assert(bs.take(0) =~= Seq::<ConfigPluginV>::empty());
        assert(base + missing_plugins(names, bs.take(0)) =~= base);
    }
    let mut j: usize = 0;
    while j < built_ins.len()
        invariant
            j <= built_ins@.len(),
            merged.depth == config.depth,
            merged.extensions == config.extensions,
            merged.filter_by_extensions == config.filter_by_extensions,
            merged.include_directories == config.include_directories,
            plugin_views(merged.plugins@) == base + missing_plugins(names, bs.take(j as int)),
            added == (missing_plugins(names, bs.take(j as int)).len() > 0),
        decreases built_ins@.len() - j,
    {
        proof {
            assert(bs.take(j + 1).drop_last() =~= bs.take(j as int));
            assert(bs.take(j + 1).last() == bs[j as int]);
            assert(bs[j as int] == built_ins@[j as int]@);
        }
        if !vec_contains_string(&known, &built_ins[j].name) {
            let ghost pre = merged.plugins@;
            merged.plugins.push(built_ins[j].clone());
            added = true;
            proof {
                assert(plugin_views(merged.plugins@) =~= plugin_views(pre).push(
                    built_ins@[j as int]@,
                ));
                assert(missing_plugins(names, bs.take(j + 1)) == missing_plugins(
                    names,
                    bs.take(j as int),
                ).push(bs[j as int]));
                assert(plugin_views(merged.plugins@) =~= base + missing_plugins(
                    names,
                    bs.take(j + 1),
                ));
            }
        }
        j = j + 1;
    }
    proof {
        assert(bs.take(built_ins@.len() as int) =~= bs);
    }
    (merged, added)
}

} // verus!
