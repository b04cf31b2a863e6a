//! User settings: the persisted configuration, its defaults and the catalog
//! of known dictionaries that it carries.

use vstd::prelude::*;

verus! {

/// One mebibyte, the unit in which the settings size the node cache.
pub const MIB: u64 = 1048576;

/// Name of the file that holds the configuration.
pub const SETTINGS_FILE: &'static str = "settings.json";

/// Name of the directory of the dictionary packages below the data directory.
pub const DICTS_DIR: &'static str = "dicts";

/// Directory of the dictionary packages when the settings name none.
pub fn default_dict_dir() -> (dir: String)
    ensures
        dir@ == Seq::<char>::empty(),
{
    String::new()
}

/// Catalog of a configuration that has never seen a dictionary.
pub fn default_dicts() -> (dicts: Vec<DictItem>)
    ensures
        dicts@ == Seq::<DictItem>::empty(),
{
    Vec::new()
}

/// Size of the shared node cache, in MiB, when the settings name none.
pub fn default_cache_size() -> (size: u32)
    ensures
        size == 100,
{
    100
}

/// Width of the main window when the settings name none.
pub fn default_win_width() -> (width: u32)
    ensures
        width == 800,
{
    800
}

/// Height of the main window when the settings name none.
pub fn default_win_height() -> (height: u32)
    ensures
        height == 650,
{
    650
}

/// Global shortcut that starts a screen capture when the settings name none.
pub fn default_ocr_shortcut() -> (shortcut: String)
    ensures
        shortcut@ == "Alt+X"@,
{
    "Alt+X".to_owned()
}

/// Width of the captured screen region when the settings name none.
pub fn default_ocr_width() -> (width: u32)
    ensures
        width == 200,
{
    200
}

/// Height of the captured screen region when the settings name none.
pub fn default_ocr_height() -> (height: u32)
    ensures
        height == 50,
{
    50
}

/// Number of prefix matches a search returns when the settings name none.
pub fn default_prefix_limit() -> (limit: u32)
    ensures
        limit == 5,
{
    5
}

/// Number of phrase matches a search returns when the settings name none.
pub fn default_phrase_limit() -> (limit: u32)
    ensures
        limit == 10,
{
    10
}

/// Developer mode is off unless the settings turn it on.
pub fn default_dev_mode() -> (on: bool)
    ensures
        !on,
{
    false
}

/// What a catalog entry says, with the name as a sequence of characters.
pub struct DictEntry {
    pub id: u32,
    pub name: Seq<char>,
    pub available: bool,
}

/// One entry of the persisted catalog: a dictionary known by name, the id it
/// has in the current generation and whether the user wants it searched.
#[derive(Debug, PartialEq, Eq)]
pub struct DictItem {
    pub id: u32,
    pub name: String,
    pub available: bool,
}

impl View for DictItem {
    type V = DictEntry;

    open spec fn view(&self) -> DictEntry {
        DictEntry { id: self.id, name: self.name@, available: self.available }
    }
}

impl Clone for DictItem {
    fn clone(&self) -> (copy: Self)
        ensures
            copy == *self,
    {
        DictItem { id: self.id, name: self.name.clone(), available: self.available }
    }
}

/// The entries of a catalog, each by its view.
pub open spec fn catalog_view(items: Seq<DictItem>) -> Seq<DictEntry> {
    items.map_values(|item: DictItem| item@)
}

/// What a configuration says, with every text as a sequence of characters.
pub struct ConfigurationView {
    pub dict_dir: Seq<char>,
    pub dicts: Seq<DictEntry>,
    pub cache_size: u32,
    pub win_width: u32,
    pub win_height: u32,
    pub ocr_shortcut: Seq<char>,
    pub ocr_width: u32,
    pub ocr_height: u32,
    pub prefix_limit: u32,
    pub phrase_limit: u32,
    pub dev_mode: bool,
}

/// The persisted configuration.
#[derive(Debug)]
pub struct Configuration {
    pub dict_dir: String,
    pub dicts: Vec<DictItem>,
    pub cache_size: u32,
    pub win_width: u32,
    pub win_height: u32,
    pub ocr_shortcut: String,
    pub ocr_width: u32,
    pub ocr_height: u32,
    pub prefix_limit: u32,
    pub phrase_limit: u32,
    pub dev_mode: bool,
}

impl View for Configuration {
    type V = ConfigurationView;

    open spec fn view(&self) -> ConfigurationView {
        ConfigurationView {
            dict_dir: self.dict_dir@,
            dicts: catalog_view(self.dicts@),
            cache_size: self.cache_size,
            win_width: self.win_width,
            win_height: self.win_height,
            ocr_shortcut: self.ocr_shortcut@,
            ocr_width: self.ocr_width,
            ocr_height: self.ocr_height,
            prefix_limit: self.prefix_limit,
            phrase_limit: self.phrase_limit,
            dev_mode: self.dev_mode,
        }
    }
}

/// The configuration in which every field has its default.
pub open spec fn default_configuration() -> ConfigurationView {
    ConfigurationView {
        dict_dir: Seq::empty(),
        dicts: Seq::empty(),
        cache_size: 100,
        win_width: 800,
        win_height: 650,
        ocr_shortcut: "Alt+X"@,
        ocr_width: 200,
        ocr_height: 50,
        prefix_limit: 5,
        phrase_limit: 10,
        dev_mode: false,
    }
}

impl Default for Configuration {
    fn default() -> (config: Self)
        ensures
            config@ == default_configuration(),
    {
        let config = Configuration {
            dict_dir: default_dict_dir(),
            dicts: default_dicts(),
            cache_size: default_cache_size(),
            win_width: default_win_width(),
            win_height: default_win_height(),
            ocr_shortcut: default_ocr_shortcut(),
            ocr_width: default_ocr_width(),
            ocr_height: default_ocr_height(),
            prefix_limit: default_prefix_limit(),
            phrase_limit: default_phrase_limit(),
            dev_mode: default_dev_mode(),
        };
        assert(config@.dicts =~= Seq::empty());
        config
    }
}

impl Clone for Configuration {
    fn clone(&self) -> (copy: Self)
        ensures
            copy@ == self@,
    {
        let mut dicts: Vec<DictItem> = Vec::new();
        let mut i: usize = 0;
        while i < self.dicts.len()
            invariant
                i <= self.dicts.len(),
                dicts@ == self.dicts@.take(i as int),
            decreases self.dicts.len() - i,
        {
            dicts.push(self.dicts[i].clone());
            i += 1;
        }
        assert(self.dicts@.take(i as int) == self.dicts@);
        Configuration {
            dict_dir: self.dict_dir.clone(),
            dicts,
            cache_size: self.cache_size,
            win_width: self.win_width,
            win_height: self.win_height,
            ocr_shortcut: self.ocr_shortcut.clone(),
            ocr_width: self.ocr_width,
            ocr_height: self.ocr_height,
            prefix_limit: self.prefix_limit,
            phrase_limit: self.phrase_limit,
            dev_mode: self.dev_mode,
        }
    }
}

impl Configuration {
    /// The defaults, with the dictionaries kept under `dict_dir`.
    pub fn with_dict_dir(dict_dir: String) -> (config: Self)
        ensures
            config@ == (ConfigurationView { dict_dir: dict_dir@, ..default_configuration() }),
    {
        let mut config = Configuration::default();
        config.dict_dir = dict_dir;
        config
    }

    /// Capacity of the shared node cache in bytes.
    pub fn cache_capacity(&self) -> (bytes: u64)
        ensures
            bytes == self.cache_size * MIB,
    {
        let size: u64 = self.cache_size as u64;
        size * MIB
    }
}

/// What the settings say, with every text as a sequence of characters.
pub struct SettingsView {
    pub file: Seq<char>,
    pub config: ConfigurationView,
    pub server_port: u32,
}

impl SettingsView {
    /// The settings with another catalog.
    pub open spec fn with_catalog(self, dicts: Seq<DictEntry>) -> Self {
        SettingsView { config: ConfigurationView { dicts, ..self.config }, ..self }
    }
}

/// The settings of a running application: the configuration, the file it is
/// persisted in and the port the content server listens on (0 until bound).
pub struct Settings {
    pub file: String,
    pub config: Configuration,
    pub server_port: u32,
}

impl View for Settings {
    type V = SettingsView;

    open spec fn view(&self) -> SettingsView {
        SettingsView { file: self.file@, config: self.config@, server_port: self.server_port }
    }
}

impl Settings {
    /// Settings that persist `config` in `file`; no server port is bound yet.
    pub fn new(file: String, config: Configuration) -> (settings: Self)
        ensures
            settings.file == file,
            settings.config == config,
            settings.server_port == 0,
    {
        Settings { file, config, server_port: 0 }
    }

    /// The settings at the start of the application, of what the file of the
    /// configuration gave: the stored configuration where the file was there
    /// and could be read as one; else the defaults with the dictionaries kept
    /// under `dict_dir`, and these are to be written to the file (`fresh`).
    pub fn init(file: String, stored: Option<Configuration>, dict_dir: String) -> (started: (
        Self,
        bool,
    ))
        ensures
            started.0.file == file,
            started.0.server_port == 0,
            match stored {
                Some(config) => started.0.config == config && !started.1,
                None => started.0.config@ == (ConfigurationView {
                    dict_dir: dict_dir@,
                    ..default_configuration()
                }) && started.1,
            },
    {
        match stored {
            Some(config) => (Settings::new(file, config), false),
            None => (Settings::new(file, Configuration::with_dict_dir(dict_dir)), true),
        }
    }
}

} // verus!
