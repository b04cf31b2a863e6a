//! What the commands of the application decide before and after they ask the
//! engine, the disk or the database.

use crate::base::{
    page_count, shown_page, AppState, AppStateView, DictionaryHandle, Pagination,
};
use crate::settings::{
    catalog_view, Configuration, ConfigurationView, DictEntry, DictItem, SettingsView,
};
use vstd::prelude::*;

verus! {

/// A search in one dictionary.
#[derive(Debug)]
pub struct SearchParams {
    pub id: u32,
    pub kw: String,
    pub strict: bool,
    pub prefix_limit: usize,
    pub phrase_limit: usize,
}

/// The dictionary that a search is about: the live one with the id of the
/// search. A search in a dictionary that is not loaded finds no words.
pub fn search<'a, H>(state: &'a AppState<H>, req: &SearchParams) -> (target: Option<
    &'a DictionaryHandle<H>,
>)
    ensures
        match target {
            Some(handle) => state@.dicts.contains_key(req.id) && handle@ == state@.dicts[req.id],
            None => !state@.dicts.contains_key(req.id),
        },
{
    state.get_dictionary(req.id)
}

/// The settings that a user changes; what is `None` stays as it is.
#[derive(Debug)]
pub struct SettingsParams {
    pub dict_dir: Option<String>,
    pub dicts: Option<Vec<DictItem>>,
    pub cache_size: Option<u32>,
    pub prefix_limit: Option<u32>,
    pub phrase_limit: Option<u32>,
    pub ocr_width: Option<u32>,
    pub ocr_height: Option<u32>,
    pub ocr_shortcut: Option<String>,
    pub dev_mode: Option<bool>,
}

/// Changed settings, with every text as a sequence of characters.
pub struct SettingsParamsView {
    pub dict_dir: Option<Seq<char>>,
    pub dicts: Option<Seq<DictEntry>>,
    pub cache_size: Option<u32>,
    pub prefix_limit: Option<u32>,
    pub phrase_limit: Option<u32>,
    pub ocr_width: Option<u32>,
    pub ocr_height: Option<u32>,
    pub ocr_shortcut: Option<Seq<char>>,
    pub dev_mode: Option<bool>,
}

impl View for SettingsParams {
    type V = SettingsParamsView;

    open spec fn view(&self) -> SettingsParamsView {
        SettingsParamsView {
            dict_dir: match self.dict_dir {
                Some(dir) => Some(dir@),
                None => None,
            },
            dicts: match self.dicts {
                Some(dicts) => Some(catalog_view(dicts@)),
                None => None,
            },
            cache_size: self.cache_size,
            prefix_limit: self.prefix_limit,
            phrase_limit: self.phrase_limit,
            ocr_width: self.ocr_width,
            ocr_height: self.ocr_height,
            ocr_shortcut: match self.ocr_shortcut {
                Some(shortcut) => Some(shortcut@),
                None => None,
            },
            dev_mode: self.dev_mode,
        }
    }
}

/// The new value of a setting, or the old one where none is given.
pub open spec fn changed<A>(new: Option<A>, old: A) -> A {
    match new {
        Some(value) => value,
        None => old,
    }
}

/// The configuration after the user's changes: every setting that the
/// changes name takes the new value, and the size of the window stays.
pub open spec fn updated(config: ConfigurationView, req: SettingsParamsView) -> ConfigurationView {
    ConfigurationView {
        dict_dir: changed(req.dict_dir, config.dict_dir),
        dicts: changed(req.dicts, config.dicts),
        cache_size: changed(req.cache_size, config.cache_size),
        win_width: config.win_width,
        win_height: config.win_height,
        ocr_shortcut: changed(req.ocr_shortcut, config.ocr_shortcut),
        ocr_width: changed(req.ocr_width, config.ocr_width),
        ocr_height: changed(req.ocr_height, config.ocr_height),
        prefix_limit: changed(req.prefix_limit, config.prefix_limit),
        phrase_limit: changed(req.phrase_limit, config.phrase_limit),
        dev_mode: changed(req.dev_mode, config.dev_mode),
    }
}

/// Takes the user's changes into the configuration.
fn update(config: &mut Configuration, req: SettingsParams)
    ensures
        final(config)@ == updated(old(config)@, req@),
{
    if let Some(v) = req.dict_dir {
        config.dict_dir = v;
    }
    if let Some(v) = req.dicts {
        config.dicts = v;
    }
    if let Some(v) = req.cache_size {
        config.cache_size = v;
    }
    if let Some(v) = req.prefix_limit {
        config.prefix_limit = v;
    }
    if let Some(v) = req.phrase_limit {
        config.phrase_limit = v;
    }
    if let Some(v) = req.ocr_width {
        config.ocr_width = v;
    }
    if let Some(v) = req.ocr_height {
        config.ocr_height = v;
    }
    if let Some(v) = req.ocr_shortcut {
        config.ocr_shortcut = v;
    }
    if let Some(v) = req.dev_mode {
        config.dev_mode = v;
    }
}

/// Takes the user's changes into the settings and says whether the
/// dictionaries have to be loaded again: they have when the directory of the
/// packages is named, changed or not. The settings are then yet to be saved:
/// the caller saves them, reloads where it is told to, and tells the window.
pub fn set_settings<H>(state: &mut AppState<H>, req: SettingsParams) -> (need_reload: bool)
    ensures
        final(state)@ == (AppStateView {
            settings: SettingsView {
                config: updated(old(state)@.settings.config, req@),
                ..old(state)@.settings
            },
            unsaved: true,
            ..old(state)@
        }),
        old(state).wf() ==> final(state).wf(),
        need_reload == (req.dict_dir is Some),
{
    let need_reload = req.dict_dir.is_some();
    let mut config = state.settings().config.clone();
    update(&mut config, req);
    state.set_config(config);
    need_reload
}

/// The page of a word list that is asked for.
#[derive(Debug)]
pub struct WordListParams {
    pub book_id: i64,
    pub page: u32,
    pub size: u32,
    pub order: Option<String>,
}

/// The frame of the page of words that is shown for a request, of the number
/// of words in the book: the page asked for, or the last one where that lies
/// behind it. The caller fills in the words unless the book is empty.
pub fn get_word_list<T>(req: &WordListParams, total: u32) -> (frame: Pagination<T>)
    ensures
        frame.total == total,
        frame.size == req.size,
        frame.pages == page_count(total, req.size),
        frame.page == shown_page(req.page, frame.pages),
        frame.list@ == Seq::<T>::empty(),
{
    Pagination::new(req.page, req.size, total)
}

} // verus!
