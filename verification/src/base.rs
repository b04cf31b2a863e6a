//! The registry of loaded dictionaries.
//!
//! Every loaded dictionary has an id and a range of namespaces of the shared
//! node cache. Both come from watermarks that only grow, so an id is never
//! handed out twice and the ranges of one generation lie side by side in
//! discovery order. A reload replaces the generation as a whole: the registry
//! decides, the caller lists the directory, opens the packages and saves the
//! settings, and hands each outcome back as an event.

use crate::catalog::{
    discovered_view, distinct_names, first_named, lemma_latest_id_of_distinct,
    lemma_reconciled_names, lemma_reconciled_takes_fresh_id, lemma_reconciled_with_nothing,
    names_entry, reconcile, reconciled, was_found, Discovered, Found,
};
use crate::settings::{Configuration, DictEntry, Settings, SettingsView};
use std::collections::HashMap;
use vstd::prelude::*;

verus! {

broadcast use vstd::std_specs::hash::group_hash_axioms;

/// What a handle says, with the name as a sequence of characters.
pub struct HandleView<H> {
    pub id: u32,
    pub name: Seq<char>,
    pub start: u32,
    pub end: u32,
    pub engine: H,
}

/// One loaded dictionary: its id, the name of its package, the namespaces
/// `start..end` of the shared cache that are its own, and what the engine
/// opened.
pub struct DictionaryHandle<H> {
    pub id: u32,
    pub name: String,
    pub start: u32,
    pub end: u32,
    pub engine: H,
}

impl<H> View for DictionaryHandle<H> {
    type V = HandleView<H>;

    open spec fn view(&self) -> HandleView<H> {
        HandleView {
            id: self.id,
            name: self.name@,
            start: self.start,
            end: self.end,
            engine: self.engine,
        }
    }
}

/// Why a reload ended without success.
#[derive(Clone, Copy, Debug, PartialEq, Eq)]
pub enum ReloadError {
    /// The directory of the packages could not be created or listed.
    Discovery,
    /// The settings could not be saved.
    Persistence,
    /// The event does not answer what the registry had asked for.
    OutOfTurn,
}

/// What happened outside the registry during a reload.
pub enum ReloadEvent<H> {
    /// A reload is asked for.
    Requested,
    /// The directory was listed: the names of its packages, in listing order.
    Listed(Vec<String>),
    /// The directory could not be created or listed.
    ListingFailed,
    /// The engine opened the package; its namespaces end before `end`.
    Opened { engine: H, end: u32 },
    /// The engine could not open the package.
    OpenFailed,
    /// The settings were saved.
    Saved,
    /// The settings could not be saved.
    SaveFailed,
}

/// A reload event, with every name as a sequence of characters.
pub enum ReloadEventView<H> {
    Requested,
    Listed(Seq<Seq<char>>),
    ListingFailed,
    Opened { engine: H, end: u32 },
    OpenFailed,
    Saved,
    SaveFailed,
}

/// The names of a listing, each as a sequence of characters.
pub open spec fn names_view(names: Seq<String>) -> Seq<Seq<char>> {
    names.map_values(|name: String| name@)
}

impl<H> View for ReloadEvent<H> {
    type V = ReloadEventView<H>;

    open spec fn view(&self) -> ReloadEventView<H> {
        match *self {
            ReloadEvent::Requested => ReloadEventView::Requested,
            ReloadEvent::Listed(names) => ReloadEventView::Listed(names_view(names@)),
            ReloadEvent::ListingFailed => ReloadEventView::ListingFailed,
            ReloadEvent::Opened { engine, end } => ReloadEventView::Opened { engine, end },
            ReloadEvent::OpenFailed => ReloadEventView::OpenFailed,
            ReloadEvent::Saved => ReloadEventView::Saved,
            ReloadEvent::SaveFailed => ReloadEventView::SaveFailed,
        }
    }
}

/// What the caller of a reload has to do next.
#[derive(Debug, PartialEq, Eq)]
pub enum ReloadAction {
    /// Create the directory if it is absent and list its packages.
    List { dir: String },
    /// Open the package of this name with namespaces from `start` on.
    Open { name: String, start: u32 },
    /// Save the settings.
    Save,
    /// Nothing: the reload is over, or the event was refused.
    Done(Result<(), ReloadError>),
}

/// A reload action, with every text as a sequence of characters.
pub enum ReloadActionView {
    List { dir: Seq<char> },
    Open { name: Seq<char>, start: u32 },
    Save,
    Done(Result<(), ReloadError>),
}

impl View for ReloadAction {
    type V = ReloadActionView;

    open spec fn view(&self) -> ReloadActionView {
        match *self {
            ReloadAction::List { dir } => ReloadActionView::List { dir: dir@ },
            ReloadAction::Open { name, start } => ReloadActionView::Open { name: name@, start },
            ReloadAction::Save => ReloadActionView::Save,
            ReloadAction::Done(outcome) => ReloadActionView::Done(outcome),
        }
    }
}

/// How far a reload has come.
pub enum PhaseView {
    /// No reload is under way.
    Idle,
    /// The listing of the directory is awaited.
    Listing,
    /// The package `pending[next]` is being opened; `opened` are the packages
    /// of this reload that the registry took in so far.
    Opening { pending: Seq<Seq<char>>, next: int, opened: Seq<Found> },
    /// The saving of the settings is awaited.
    Saving,
}

/// The registry as a value: both watermarks, where the live generation
/// began, its handles by id, the state of the reload, the settings, and
/// whether the configuration in memory is yet to be saved.
pub struct AppStateView<H> {
    pub id_watermark: u32,
    pub namespace_watermark: u32,
    pub first_id: u32,
    pub first_namespace: u32,
    pub dicts: Map<u32, HandleView<H>>,
    pub reload: PhaseView,
    pub settings: SettingsView,
    pub unsaved: bool,
}

impl<H> AppStateView<H> {
    /// Where the namespaces of the handle `id` begin: where those of the
    /// handle before it end, or where the generation began.
    pub open spec fn namespace_before(self, id: u32) -> u32 {
        if id == self.first_id {
            self.first_namespace
        } else {
            self.dicts[(id - 1) as u32].end
        }
    }

    /// The packages that a reload took in are the handles of the generation,
    /// in the order of their ids.
    pub open spec fn mirrors(self, opened: Seq<Found>) -> bool {
        &&& opened.len() == self.id_watermark - self.first_id
        &&& forall|k: int|
            0 <= k < opened.len() ==> (#[trigger] opened[k]).id == self.first_id + k
                && opened[k].name == self.dicts[opened[k].id].name
    }

    /// The invariant of the generation: its ids are the interval from its
    /// first id to the id watermark, every handle is filed under its own id,
    /// and the namespace ranges follow one another from where the generation
    /// began up to the namespace watermark.
    pub open spec fn partitioned(self) -> bool {
        &&& 1 <= self.first_id <= self.id_watermark
        &&& self.first_namespace <= self.namespace_watermark
        &&& forall|id: u32|
            self.dicts.contains_key(id) <==> self.first_id <= id < self.id_watermark
        &&& forall|id: u32| #[trigger]
            self.dicts.contains_key(id) ==> {
                &&& self.dicts[id].id == id
                &&& self.dicts[id].start == self.namespace_before(id)
                &&& self.dicts[id].start <= self.dicts[id].end
            }
        &&& self.namespace_watermark == self.namespace_before(self.id_watermark)
    }

    /// The invariant of the registry: that of the generation, and while
    /// packages are opened one of them is pending and the packages taken in
    /// are the handles of the generation.
    pub open spec fn wf(self) -> bool {
        &&& self.partitioned()
        &&& match self.reload {
            PhaseView::Opening { pending, next, opened } => 0 <= next < pending.len()
                && self.mirrors(opened),
            _ => true,
        }
    }

    /// The registry with the phase of the reload set.
    pub open spec fn in_phase(self, reload: PhaseView) -> Self {
        AppStateView { reload, ..self }
    }

    /// The registry at the start of a new generation that is to hold the
    /// packages `names`: no handle is left, and the generation begins at the
    /// watermarks.
    pub open spec fn begun(self, names: Seq<Seq<char>>) -> Self {
        AppStateView {
            first_id: self.id_watermark,
            first_namespace: self.namespace_watermark,
            dicts: Map::empty(),
            reload: PhaseView::Opening { pending: names, next: 0, opened: Seq::empty() },
            ..self
        }
    }

    /// The engine's report can be taken in: the range does not end before it
    /// begins, and an id is left.
    pub open spec fn admits(self, end: u32) -> bool {
        self.namespace_watermark <= end && self.id_watermark < u32::MAX
    }

    /// The registry after the package that was being opened is passed over.
    pub open spec fn skipped(self) -> Self {
        match self.reload {
            PhaseView::Opening { pending, next, opened } => self.in_phase(
                PhaseView::Opening { pending, next: next + 1, opened },
            ),
            _ => self,
        }
    }

    /// The registry after the package that was being opened is taken in: it
    /// gets the next id and the namespaces from the watermark up to `end`,
    /// and both watermarks move on.
    pub open spec fn admitted(self, engine: H, end: u32) -> Self {
        match self.reload {
            PhaseView::Opening { pending, next, opened } => AppStateView {
                id_watermark: (self.id_watermark + 1) as u32,
                namespace_watermark: end,
                dicts: self.dicts.insert(
                    self.id_watermark,
                    HandleView {
                        id: self.id_watermark,
                        name: pending[next],
                        start: self.namespace_watermark,
                        end,
                        engine,
                    },
                ),
                reload: PhaseView::Opening {
                    pending,
                    next: next + 1,
                    opened: opened.push(Found { id: self.id_watermark, name: pending[next] }),
                },
                ..self
            },
            _ => self,
        }
    }

    /// What follows when a package is dealt with: the next package is to be
    /// opened from the namespace watermark on; after the last one the catalog
    /// is reconciled with what was taken in, and the settings are to be saved.
    pub open spec fn proceed(self) -> (Self, ReloadActionView) {
        match self.reload {
            PhaseView::Opening { pending, next, opened } => if next < pending.len() {
                (self, ReloadActionView::Open { name: pending[next], start: self.namespace_watermark })
            } else {
                (
                    AppStateView {
                        reload: PhaseView::Saving,
                        settings: self.settings.with_catalog(
                            reconciled(self.settings.config.dicts, opened),
                        ),
                        unsaved: true,
                        ..self
                    },
                    ReloadActionView::Save,
                )
            },
            _ => (self, ReloadActionView::Done(Err(ReloadError::OutOfTurn))),
        }
    }

    /// The registry after a sequence of events, each taken in by one step.
    pub open spec fn replay(self, events: Seq<ReloadEventView<H>>) -> Self
        decreases events.len(),
    {
        if events.len() == 0 {
            self
        } else {
            self.replay(events.drop_last()).step(events.last()).0
        }
    }

    /// One step of a reload: the registry that an event leaves, and what the
    /// caller has to do next.
    ///
    /// A request starts a reload only when none is under way. A failed
    /// listing ends the reload and leaves everything as it was. A listing
    /// replaces the generation by an empty one; then the packages are opened
    /// one by one, and one that fails to open, or whose report cannot be
    /// taken in, is passed over. An event that does not answer the pending
    /// action changes nothing.
    ///
    /// A failed save ends the reload with an error and takes nothing back:
    /// the handles are loaded, so the generation and the reconciled catalog
    /// stay. The registry does not save again by itself; it keeps `unsaved`
    /// set until the caller reports a save that succeeded.
    pub open spec fn step(self, event: ReloadEventView<H>) -> (Self, ReloadActionView) {
        match (self.reload, event) {
            (PhaseView::Idle, ReloadEventView::Requested) => (
                self.in_phase(PhaseView::Listing),
                ReloadActionView::List { dir: self.settings.config.dict_dir },
            ),
            (PhaseView::Listing, ReloadEventView::ListingFailed) => (
                self.in_phase(PhaseView::Idle),
                ReloadActionView::Done(Err(ReloadError::Discovery)),
            ),
            (PhaseView::Listing, ReloadEventView::Listed(names)) => self.begun(names).proceed(),
            (PhaseView::Opening { .. }, ReloadEventView::Opened { engine, end }) => if self.admits(
                end,
            ) {
                self.admitted(engine, end).proceed()
            } else {
                self.skipped().proceed()
            },
            (PhaseView::Opening { .. }, ReloadEventView::OpenFailed) => self.skipped().proceed(),
            (PhaseView::Saving, ReloadEventView::Saved) => (
                AppStateView { reload: PhaseView::Idle, unsaved: false, ..self },
                ReloadActionView::Done(Ok(())),
            ),
            (PhaseView::Saving, ReloadEventView::SaveFailed) => (
                self.in_phase(PhaseView::Idle),
                ReloadActionView::Done(Err(ReloadError::Persistence)),
            ),
            _ => (self, ReloadActionView::Done(Err(ReloadError::OutOfTurn))),
        }
    }
}

/// One page of a longer list, and where it stands in the list.
#[derive(Debug)]
pub struct Pagination<T> {
    pub page: u32,
    pub size: u32,
    pub pages: u32,
    pub total: u32,
    pub list: Vec<T>,
}

/// The number of pages that `total` rows fill at `size` rows a page. With a
/// page size of zero nothing fills no page, and anything fills more pages
/// than can be counted.
pub open spec fn page_count(total: u32, size: u32) -> u32 {
    if size == 0 {
        if total == 0 {
            0
        } else {
            u32::MAX
        }
    } else {
        ((total + size - 1) / (size as int)) as u32
    }
}

/// The page that is shown when `page` is asked for: the last one where
/// `page` lies behind it.
pub open spec fn shown_page(page: u32, pages: u32) -> u32 {
    if page > pages {
        pages
    } else {
        page
    }
}

/// The pages of a list are the fewest that hold all its rows.
pub proof fn lemma_page_count_is_least(total: u32, size: u32)
    requires
        size > 0,
    ensures
        page_count(total, size) * size >= total,
        page_count(total, size) > 0 ==> (page_count(total, size) - 1) * size < total,
        total == 0 <==> page_count(total, size) == 0,
{
    let pages = (total + size - 1) / (size as int);
    assert(pages * size <= total + size - 1 < pages * size + size) by (nonlinear_arith)
        requires
            size > 0,
            pages == (total + size - 1) / (size as int),
    ;
    assert((pages - 1) * size == pages * size - size) by (nonlinear_arith);
    assert(0 <= pages <= total) by (nonlinear_arith)
        requires
            size >= 1,
            total >= 0,
            pages * size <= total + size - 1,
            total + size - 1 < pages * size + size,
    ;
}

impl<T> Pagination<T> {
    /// The frame of the page that is shown when `page` is asked for of a list
    /// of `total` rows at `size` rows a page; the rows are yet to be filled
    /// in.
    pub fn new(page: u32, size: u32, total: u32) -> (frame: Self)
        ensures
            frame.total == total,
            frame.size == size,
            frame.pages == page_count(total, size),
            frame.page == shown_page(page, frame.pages),
            frame.list@ == Seq::<T>::empty(),
    {
        let pages: u32 = if size == 0 {
            if total == 0 {
                0
            } else {
                u32::MAX
            }
        } else {
            proof {
                lemma_page_count_is_least(total, size);
            }
            let rows: u64 = total as u64 + size as u64 - 1;
            (rows / size as u64) as u32
        };
        let shown: u32 = if page > pages {
            pages
        } else {
            page
        };
        Pagination { page: shown, size, pages, total, list: Vec::new() }
    }

    /// The number of rows that stand before the page, where the page is not
    /// the page 0, which has no place in the list.
    pub fn offset(&self) -> (rows: Option<u64>)
        ensures
            rows == if self.page == 0 {
                None
            } else {
                Some(((self.page - 1) * self.size) as u64)
            },
    {
        if self.page == 0 {
            None
        } else {
            assert((self.page - 1) * self.size <= u32::MAX * u32::MAX) by (nonlinear_arith)
                requires
                    1 <= self.page <= u32::MAX,
                    0 <= self.size <= u32::MAX,
            ;
            Some((self.page as u64 - 1) * self.size as u64)
        }
    }
}

/// The phase of a reload, without what it carries.
#[derive(Clone, Copy, Debug, PartialEq, Eq)]
enum Stage {
    Idle,
    Listing,
    Opening,
    Saving,
}

/// The registry of loaded dictionaries, with the settings that hold the
/// persisted catalog.
pub struct AppState<H> {
    last_dict_id: u32,
    last_cache_id: u32,
    first_dict_id: u32,
    first_cache_id: u32,
    dicts: HashMap<u32, DictionaryHandle<H>>,
    stage: Stage,
    pending: Vec<String>,
    next: usize,
    opened: Vec<Discovered>,
    settings: Settings,
    unsaved: bool,
}

impl<H> View for AppState<H> {
    type V = AppStateView<H>;

    closed spec fn view(&self) -> AppStateView<H> {
        AppStateView {
            id_watermark: self.last_dict_id,
            namespace_watermark: self.last_cache_id,
            first_id: self.first_dict_id,
            first_namespace: self.first_cache_id,
            dicts: self.dicts@.map_values(|handle: DictionaryHandle<H>| handle@),
            reload: match self.stage {
                Stage::Idle => PhaseView::Idle,
                Stage::Listing => PhaseView::Listing,
                Stage::Opening => PhaseView::Opening {
                    pending: names_view(self.pending@),
                    next: self.next as int,
                    opened: discovered_view(self.opened@),
                },
                Stage::Saving => PhaseView::Saving,
            },
            settings: self.settings@,
            unsaved: self.unsaved,
        }
    }
}

impl<H> AppState<H> {
    /// The invariant of the registry holds.
    pub open spec fn wf(&self) -> bool {
        self@.wf()
    }

    /// A registry without handles: ids are handed out from 1 on, namespaces
    /// from 0 on, and no reload is under way.
    pub fn new(settings: Settings) -> (state: Self)
        ensures
            state.wf(),
            state@ == (AppStateView::<H> {
                id_watermark: 1,
                namespace_watermark: 0,
                first_id: 1,
                first_namespace: 0,
                dicts: Map::empty(),
                reload: PhaseView::Idle,
                settings: settings@,
                unsaved: false,
            }),
    {
        let state = AppState {
            last_dict_id: 1,
            last_cache_id: 0,
            first_dict_id: 1,
            first_cache_id: 0,
            dicts: HashMap::new(),
            stage: Stage::Idle,
            pending: Vec::new(),
            next: 0,
            opened: Vec::new(),
            settings,
            unsaved: false,
        };
        assert(state@.dicts =~= Map::empty());
        state
    }

    /// The handle of the dictionary with this id, if the live generation has
    /// one.
    pub fn get_dictionary(&self, id: u32) -> (found: Option<&DictionaryHandle<H>>)
        ensures
            match found {
                Some(handle) => self@.dicts.contains_key(id) && handle@ == self@.dicts[id],
                None => !self@.dicts.contains_key(id),
            },
    {
        self.dicts.get(&id)
    }

    /// The settings, with the catalog as the last reload left it.
    pub fn settings(&self) -> (settings: &Settings)
        ensures
            settings@ == self@.settings,
    {
        &self.settings
    }

    /// Replaces the configuration, the catalog with it; it is yet to be
    /// saved. The handles and a reload under way are not touched.
    pub fn set_config(&mut self, config: Configuration)
        ensures
            final(self)@ == (AppStateView {
                settings: SettingsView { config: config@, ..old(self)@.settings },
                unsaved: true,
                ..old(self)@
            }),
            old(self).wf() ==> final(self).wf(),
    {
        self.settings.config = config;
        self.unsaved = true;
    }

    /// Says whether the configuration in memory, the catalog with it, is yet
    /// to be saved: it was changed, by a reload or by the user, and no save
    /// has succeeded since.
    pub fn unsaved(&self) -> (unsaved: bool)
        ensures
            unsaved == self@.unsaved,
    {
        self.unsaved
    }

    /// Takes note that the settings were saved as they are.
    pub fn settings_saved(&mut self)
        ensures
            final(self)@ == (AppStateView { unsaved: false, ..old(self)@ }),
            old(self).wf() ==> final(self).wf(),
    {
        self.unsaved = false;
    }

    /// Records the port that the content server listens on.
    pub fn set_server_port(&mut self, port: u32)
        ensures
            final(self)@ == (AppStateView {
                settings: SettingsView { server_port: port, ..old(self)@.settings },
                ..old(self)@
            }),
            old(self).wf() ==> final(self).wf(),
    {
        self.settings.server_port = port;
    }

    /// Takes in the package that was being opened.
    fn add_dictionary(&mut self, engine: H, end: u32) -> (id: u32)
        requires
            old(self).wf(),
            old(self)@.reload is Opening,
            old(self)@.admits(end),
        ensures
            final(self)@ == old(self)@.admitted(engine, end),
            id == old(self)@.id_watermark,
    {
        assert(self.next < self.pending.len());
        let id = self.last_dict_id;
        let name = self.pending[self.next].clone();
        let handle = DictionaryHandle {
            id,
            name: name.clone(),
            start: self.last_cache_id,
            end,
            engine,
        };
        let ghost filed = handle@;
        self.dicts.insert(id, handle);
        let ghost opened = discovered_view(self.opened@);
        self.opened.push(Discovered { id, name });
        self.last_dict_id = id + 1;
        self.last_cache_id = end;
        self.next = self.next + 1;
        proof {
            assert(self@.dicts =~= old(self)@.dicts.insert(id, filed));
            assert(discovered_view(self.opened@) =~= opened.push(
                Found { id, name: names_view(self.pending@)[old(self).next as int] },
            ));
        }
        id
    }

    /// Asks for the next package, or reconciles the catalog after the last.
    fn proceed(&mut self) -> (action: ReloadAction)
        requires
            old(self).stage == Stage::Opening,
            old(self).next <= old(self).pending.len(),
        ensures
            (final(self)@, action@) == old(self)@.proceed(),
    {
        if self.next < self.pending.len() {
            let name = self.pending[self.next].clone();
            ReloadAction::Open { name, start: self.last_cache_id }
        } else {
            reconcile(&mut self.settings.config.dicts, &self.opened);
            self.stage = Stage::Saving;
            self.unsaved = true;
            ReloadAction::Save
        }
    }

    /// One step of a reload: takes the event in and says what the caller has
    /// to do next. A reload starts with `Requested` and is over when the
    /// action is `Done`.
    pub fn load_dictionaries(&mut self, event: ReloadEvent<H>) -> (action: ReloadAction)
        requires
            old(self).wf(),
        ensures
            final(self).wf(),
            (final(self)@, action@) == old(self)@.step(event@),
    {
        proof {
            lemma_step_keeps_wf(self@, event@);
        }
        match event {
            ReloadEvent::Requested => match self.stage {
                Stage::Idle => {
                    self.stage = Stage::Listing;
                    ReloadAction::List { dir: self.settings.config.dict_dir.clone() }
                },
                _ => ReloadAction::Done(Err(ReloadError::OutOfTurn)),
            },
            ReloadEvent::ListingFailed => match self.stage {
                Stage::Listing => {
                    self.stage = Stage::Idle;
                    ReloadAction::Done(Err(ReloadError::Discovery))
                },
                _ => ReloadAction::Done(Err(ReloadError::OutOfTurn)),
            },
            ReloadEvent::Listed(names) => match self.stage {
                Stage::Listing => {
                    self.dicts = HashMap::new();
                    self.first_dict_id = self.last_dict_id;
                    self.first_cache_id = self.last_cache_id;
                    self.pending = names;
                    self.next = 0;
                    self.opened = Vec::new();
                    self.stage = Stage::Opening;
                    assert(self@.dicts =~= Map::empty());
                    assert(discovered_view(self.opened@) =~= Seq::empty());
                    assert(self@ == old(self)@.begun(event@->Listed_0));
                    self.proceed()
                },
                _ => ReloadAction::Done(Err(ReloadError::OutOfTurn)),
            },
            ReloadEvent::Opened { engine, end } => match self.stage {
                Stage::Opening => {
                    assert(self.next < self.pending.len());
                    if self.last_cache_id <= end && self.last_dict_id < u32::MAX {
                        self.add_dictionary(engine, end);
                    } else {
                        self.next = self.next + 1;
                    }
                    self.proceed()
                },
                _ => ReloadAction::Done(Err(ReloadError::OutOfTurn)),
            },
            ReloadEvent::OpenFailed => match self.stage {
                Stage::Opening => {
                    assert(self.next < self.pending.len());
                    self.next = self.next + 1;
                    self.proceed()
                },
                _ => ReloadAction::Done(Err(ReloadError::OutOfTurn)),
            },
            ReloadEvent::Saved => match self.stage {
                Stage::Saving => {
                    self.stage = Stage::Idle;
                    self.unsaved = false;
                    ReloadAction::Done(Ok(()))
                },
                _ => ReloadAction::Done(Err(ReloadError::OutOfTurn)),
            },
            ReloadEvent::SaveFailed => match self.stage {
                Stage::Saving => {
                    self.stage = Stage::Idle;
                    ReloadAction::Done(Err(ReloadError::Persistence))
                },
                _ => ReloadAction::Done(Err(ReloadError::OutOfTurn)),
            },
        }
    }
}

/// Every step of a reload keeps the invariant of the registry.
pub proof fn lemma_step_keeps_wf<H>(state: AppStateView<H>, event: ReloadEventView<H>)
    requires
        state.wf(),
    ensures
        state.step(event).0.wf(),
{
    match (state.reload, event) {
        (PhaseView::Listing, ReloadEventView::Listed(names)) => {
            let begun = state.begun(names);
            assert(begun.partitioned());
            assert(begun.mirrors(Seq::empty()));
            lemma_proceed_keeps_wf(begun);
        },
        (PhaseView::Opening { pending, next, opened }, ReloadEventView::Opened { engine, end }) => {
            if state.admits(end) {
                lemma_admitted_partitioned(state, engine, end);
                lemma_proceed_keeps_wf(state.admitted(engine, end));
            } else {
                lemma_proceed_keeps_wf(state.skipped());
            }
        },
        (PhaseView::Opening { pending, next, opened }, ReloadEventView::OpenFailed) => {
            lemma_proceed_keeps_wf(state.skipped());
        },
        _ => {},
    }
}

/// A registry that has dealt with a package is in order again once the next
/// one is asked for or the catalog is reconciled.
proof fn lemma_proceed_keeps_wf<H>(state: AppStateView<H>)
    requires
        state.partitioned(),
        state.reload matches PhaseView::Opening { pending, next, opened } && 0 <= next
            <= pending.len() && state.mirrors(opened),
    ensures
        state.proceed().0.wf(),
{
    let after = state.proceed().0;
    assert(after.dicts == state.dicts);
    assert(after.partitioned());
}

/// Taking a package in keeps the generation partitioned, and the packages
/// taken in remain its handles.
proof fn lemma_admitted_partitioned<H>(state: AppStateView<H>, engine: H, end: u32)
    requires
        state.wf(),
        state.reload is Opening,
        state.admits(end),
    ensures
        state.admitted(engine, end).partitioned(),
        state.admitted(engine, end).reload matches PhaseView::Opening { pending, next, opened }
            && 0 <= next <= pending.len() && state.admitted(engine, end).mirrors(opened),
{
    let after = state.admitted(engine, end);
    let id = state.id_watermark;
    assert forall|other: u32| #[trigger] after.dicts.contains_key(other) implies {
        &&& after.dicts[other].id == other
        &&& after.dicts[other].start == after.namespace_before(other)
        &&& after.dicts[other].start <= after.dicts[other].end
    } by {
        if other != id {
            assert(state.dicts.contains_key(other));
            if other != state.first_id {
                assert(state.dicts.contains_key((other - 1) as u32));
            }
        } else if id != state.first_id {
            assert(state.dicts.contains_key((id - 1) as u32));
        }
    }
    match state.reload {
        PhaseView::Opening { pending, next, opened } => {
            let taken = opened.push(Found { id, name: pending[next] });
            assert forall|k: int| 0 <= k < taken.len() implies (#[trigger] taken[k]).id
                == after.first_id + k && taken[k].name == after.dicts[taken[k].id].name by {
                if k < opened.len() {
                    assert(opened[k].id == state.first_id + k);
                    assert(state.dicts.contains_key(opened[k].id));
                }
            }
        },
        _ => {},
    }
}

/// The namespace ranges of one generation are disjoint: of two handles, the
/// one with the smaller id ends before the other begins.
pub proof fn lemma_namespaces_disjoint<H>(state: AppStateView<H>, a: u32, b: u32)
    requires
        state.partitioned(),
        state.dicts.contains_key(a),
        state.dicts.contains_key(b),
        a < b,
    ensures
        state.dicts[a].end <= state.dicts[b].start,
    decreases b - a,
{
    let before = (b - 1) as u32;
    assert(state.dicts.contains_key(before));
    assert(state.dicts[b].start == state.dicts[before].end);
    if a < before {
        lemma_namespaces_disjoint(state, a, before);
    }
}

/// The namespace ranges of one generation lie side by side in discovery
/// order: the first begins where the generation began, each of the others
/// where the one before it ends, and the last ends at the watermark.
pub proof fn lemma_namespaces_contiguous<H>(state: AppStateView<H>, id: u32)
    requires
        state.partitioned(),
        state.dicts.contains_key(id),
    ensures
        id == state.first_id ==> state.dicts[id].start == state.first_namespace,
        id > state.first_id ==> state.dicts.contains_key((id - 1) as u32) && state.dicts[id].start
            == state.dicts[(id - 1) as u32].end,
        id + 1 == state.id_watermark ==> state.dicts[id].end == state.namespace_watermark,
        state.first_namespace <= state.dicts[id].start,
        state.dicts[id].end <= state.namespace_watermark,
{
    if id > state.first_id {
        assert(state.dicts.contains_key(state.first_id));
        lemma_namespaces_disjoint(state, state.first_id, id);
    }
    if id + 1 < state.id_watermark {
        let last = (state.id_watermark - 1) as u32;
        assert(state.dicts.contains_key(last));
        lemma_namespaces_disjoint(state, id, last);
    }
}

/// Every namespace between where `upto` begins and where the generation began
/// is in the range of a handle before `upto`.
proof fn lemma_namespace_owner_before<H>(state: AppStateView<H>, namespace: u32, upto: u32)
    requires
        state.partitioned(),
        state.first_id <= upto <= state.id_watermark,
        state.first_namespace <= namespace < state.namespace_before(upto),
    ensures
        exists|id: u32| #[trigger]
            state.dicts.contains_key(id) && state.dicts[id].start <= namespace
                < state.dicts[id].end,
    decreases upto - state.first_id,
{
    let id = (upto - 1) as u32;
    assert(state.dicts.contains_key(id));
    if state.dicts[id].start <= namespace {
    } else {
        lemma_namespace_owner_before(state, namespace, id);
    }
}

/// The ranges of one generation cover the interval from where the generation
/// began to the namespace watermark: every namespace in it is in the range of
/// a handle.
pub proof fn lemma_namespace_has_owner<H>(state: AppStateView<H>, namespace: u32)
    requires
        state.partitioned(),
        state.first_namespace <= namespace < state.namespace_watermark,
    ensures
        exists|id: u32| #[trigger]
            state.dicts.contains_key(id) && state.dicts[id].start <= namespace
                < state.dicts[id].end,
{
    lemma_namespace_owner_before(state, namespace, state.id_watermark);
}

/// No namespace is in the ranges of two handles.
pub proof fn lemma_namespace_has_one_owner<H>(
    state: AppStateView<H>,
    namespace: u32,
    a: u32,
    b: u32,
)
    requires
        state.partitioned(),
        state.dicts.contains_key(a),
        state.dicts.contains_key(b),
        state.dicts[a].start <= namespace < state.dicts[a].end,
        state.dicts[b].start <= namespace < state.dicts[b].end,
    ensures
        a == b,
{
    if a < b {
        lemma_namespaces_disjoint(state, a, b);
    }
    if b < a {
        lemma_namespaces_disjoint(state, b, a);
    }
}

/// The ids of the handles of one generation are pairwise distinct.
pub proof fn lemma_ids_distinct<H>(state: AppStateView<H>, a: u32, b: u32)
    requires
        state.partitioned(),
        state.dicts.contains_key(a),
        state.dicts.contains_key(b),
        a != b,
    ensures
        state.dicts[a].id != state.dicts[b].id,
{
}

/// The ids from `first` up to `next`.
spec fn id_range(first: u32, next: u32) -> Set<u32> {
    Set::new(|id: u32| first <= id < next)
}

/// There are `next - first` ids from `first` up to `next`.
proof fn lemma_id_range_len(first: u32, next: u32)
    requires
        first <= next,
    ensures
        id_range(first, next).finite(),
        id_range(first, next).len() == next - first,
    decreases next - first,
{
    if first == next {
        assert(id_range(first, next) =~= Set::<u32>::empty());
    } else {
        let last = (next - 1) as u32;
        lemma_id_range_len(first, last);
        assert(id_range(first, next) =~= id_range(first, last).insert(last));
    }
}

/// A generation has as many handles as ids were handed out since it began.
pub proof fn lemma_handle_count<H>(state: AppStateView<H>)
    requires
        state.partitioned(),
    ensures
        state.dicts.dom().finite(),
        state.dicts.dom().len() == state.id_watermark - state.first_id,
{
    lemma_id_range_len(state.first_id, state.id_watermark);
    assert(state.dicts.dom() =~= id_range(state.first_id, state.id_watermark));
}

/// The number of packages that opened among the outcomes of a reload.
pub open spec fn opened_count<H>(outcomes: Seq<ReloadEventView<H>>) -> nat
    decreases outcomes.len(),
{
    if outcomes.len() == 0 {
        0
    } else {
        opened_count(outcomes.drop_last()) + if outcomes.last() is Opened {
            1nat
        } else {
            0nat
        }
    }
}

/// Every outcome says of one package that it opened or that it failed to,
/// and what opened can be taken in by the registry that the outcomes before
/// it have left.
pub open spec fn outcomes_of_packages<H>(
    state: AppStateView<H>,
    outcomes: Seq<ReloadEventView<H>>,
) -> bool {
    forall|j: int|
        0 <= j < outcomes.len() ==> match #[trigger] outcomes[j] {
            ReloadEventView::Opened { end, .. } => state.replay(outcomes.take(j)).admits(end),
            ReloadEventView::OpenFailed => true,
            _ => false,
        }
}

/// Failures leave the rest: while the packages of a reload are being opened,
/// every package that opens gets the next id, and one that fails gets none
/// and stops nothing. After the outcomes of some of the pending packages the
/// registry has handed out as many ids as packages opened, and the reload
/// waits for the next package, or for the save when all are dealt with.
pub proof fn lemma_failures_leave_the_rest<H>(
    state: AppStateView<H>,
    outcomes: Seq<ReloadEventView<H>>,
)
    requires
        state.wf(),
        state.reload matches PhaseView::Opening { pending, next, .. } && outcomes.len()
            <= pending.len() - next,
        outcomes_of_packages(state, outcomes),
    ensures
        state.replay(outcomes).wf(),
        state.replay(outcomes).first_id == state.first_id,
        state.replay(outcomes).id_watermark == state.id_watermark + opened_count(outcomes),
        state.reload matches PhaseView::Opening { pending, next, .. } && (if outcomes.len()
            < pending.len() - next {
            state.replay(outcomes).reload matches PhaseView::Opening {
                pending: still,
                next: then,
                ..
            } && still == pending && then == next + outcomes.len()
        } else {
            state.replay(outcomes).reload is Saving
        }),
    decreases outcomes.len(),
{
    if outcomes.len() > 0 {
        let before = outcomes.drop_last();
        let last = outcomes.last();
        assert forall|j: int| 0 <= j < before.len() implies match #[trigger] before[j] {
            ReloadEventView::Opened { end, .. } => state.replay(before.take(j)).admits(end),
            ReloadEventView::OpenFailed => true,
            _ => false,
        } by {
            assert(before[j] == outcomes[j]);
            assert(before.take(j) == outcomes.take(j));
        }
        lemma_failures_leave_the_rest(state, before);
        let so_far = state.replay(before);
        assert(outcomes.take(before.len() as int) == before);
        assert(outcomes[before.len() as int] == last);
        lemma_step_keeps_wf(so_far, last);
    }
}

/// Of the `n` packages of a listing of which `k` fail to open, the
/// generation has `n - k` handles when the reload comes to saving the
/// settings.
pub proof fn lemma_generation_has_what_opened<H>(
    state: AppStateView<H>,
    names: Seq<Seq<char>>,
    outcomes: Seq<ReloadEventView<H>>,
)
    requires
        state.wf(),
        state.reload is Listing,
        names.len() > 0,
        outcomes.len() == names.len(),
        outcomes_of_packages(state.step(ReloadEventView::Listed(names)).0, outcomes),
    ensures
        state.step(ReloadEventView::Listed(names)).0.replay(outcomes).reload is Saving,
        state.step(ReloadEventView::Listed(names)).0.replay(outcomes).dicts.dom().finite(),
        state.step(ReloadEventView::Listed(names)).0.replay(outcomes).dicts.dom().len()
            == opened_count(outcomes),
        opened_count(outcomes) <= names.len(),
{
    let listed = state.step(ReloadEventView::Listed(names)).0;
    lemma_step_keeps_wf(state, ReloadEventView::Listed(names));
    lemma_failures_leave_the_rest(listed, outcomes);
    lemma_handle_count(listed.replay(outcomes));
    lemma_opened_count_bound(outcomes);
}

/// No more packages opened than there are outcomes.
proof fn lemma_opened_count_bound<H>(outcomes: Seq<ReloadEventView<H>>)
    ensures
        opened_count(outcomes) <= outcomes.len(),
    decreases outcomes.len(),
{
    if outcomes.len() > 0 {
        lemma_opened_count_bound(outcomes.drop_last());
    }
}

/// A step of a reload changes nothing of the settings but the catalog.
pub proof fn lemma_step_changes_catalog_only<H>(
    state: AppStateView<H>,
    event: ReloadEventView<H>,
)
    ensures
        state.step(event).0.settings == state.settings.with_catalog(
            state.step(event).0.settings.config.dicts,
        ),
{
    assert(state.settings == state.settings.with_catalog(state.settings.config.dicts));
}

/// A listing without packages leaves a registry without handles and, when
/// the reload comes to saving, a catalog without entries.
pub proof fn lemma_empty_listing_empties_registry<H>(state: AppStateView<H>)
    requires
        state.reload is Listing,
    ensures
        state.step(ReloadEventView::Listed(Seq::empty())).1 is Save,
        state.step(ReloadEventView::Listed(Seq::empty())).0.dicts == Map::<
            u32,
            HandleView<H>,
        >::empty(),
        state.step(ReloadEventView::Listed(Seq::empty())).0.settings.config.dicts == Seq::<
            DictEntry,
        >::empty(),
{
    lemma_reconciled_with_nothing(state.settings.config.dicts);
}

/// A reload that fails at the listing of the directory is atomic: the
/// handles, both watermarks, the catalog and all the rest are as they were
/// before the reload was asked for.
pub proof fn lemma_failed_listing_changes_nothing<H>(state: AppStateView<H>)
    requires
        state.reload is Idle,
    ensures
        state.step(ReloadEventView::Requested).1 == (ReloadActionView::List {
            dir: state.settings.config.dict_dir,
        }),
        state.step(ReloadEventView::Requested).0.step(ReloadEventView::ListingFailed) == (
            state,
            ReloadActionView::Done(Err(ReloadError::Discovery)),
        ),
{
}

/// A reload that fails at the saving of the settings takes nothing back: the
/// handles, the watermarks and the reconciled catalog stay, the catalog stays
/// marked as unsaved if it was, and the error is reported.
pub proof fn lemma_failed_save_takes_nothing_back<H>(state: AppStateView<H>)
    requires
        state.reload is Saving,
    ensures
        state.step(ReloadEventView::SaveFailed) == (
            state.in_phase(PhaseView::Idle),
            ReloadActionView::Done(Err(ReloadError::Persistence)),
        ),
{
}

/// When a reload comes to saving the settings, the catalog is marked as
/// unsaved, and only a save that succeeded clears the mark.
pub proof fn lemma_reload_marks_catalog_unsaved<H>(
    state: AppStateView<H>,
    event: ReloadEventView<H>,
)
    requires
        state.step(event).1 is Save,
    ensures
        state.step(event).0.unsaved,
        state.step(event).0.reload is Saving,
        state.step(event).0.step(ReloadEventView::SaveFailed).0.unsaved,
        !state.step(event).0.step(ReloadEventView::Saved).0.unsaved,
{
}

/// An id that was handed out and is not live: it belongs to a former
/// generation.
pub open spec fn retired<H>(state: AppStateView<H>, id: u32) -> bool {
    id < state.id_watermark && !state.dicts.contains_key(id)
}

/// Ids are never reused: the watermarks never fall, and an id of a former
/// generation stays retired whatever happens.
pub proof fn lemma_step_never_reuses<H>(
    state: AppStateView<H>,
    event: ReloadEventView<H>,
    id: u32,
)
    requires
        state.wf(),
    ensures
        state.step(event).0.id_watermark >= state.id_watermark,
        state.step(event).0.namespace_watermark >= state.namespace_watermark,
        state.step(event).0.first_id >= state.first_id,
        retired(state, id) ==> retired(state.step(event).0, id),
{
    lemma_step_keeps_wf(state, event);
}

/// Whatever happens, the invariant of the registry holds, the watermarks do
/// not fall and an id of a former generation stays retired.
pub proof fn lemma_replay_never_reuses<H>(
    state: AppStateView<H>,
    events: Seq<ReloadEventView<H>>,
    id: u32,
)
    requires
        state.wf(),
    ensures
        state.replay(events).wf(),
        state.replay(events).id_watermark >= state.id_watermark,
        state.replay(events).namespace_watermark >= state.namespace_watermark,
        state.replay(events).first_id >= state.first_id,
        retired(state, id) ==> retired(state.replay(events), id),
    decreases events.len(),
{
    if events.len() > 0 {
        lemma_replay_never_reuses(state, events.drop_last(), id);
        lemma_step_keeps_wf(state.replay(events.drop_last()), events.last());
        lemma_step_never_reuses(state.replay(events.drop_last()), events.last(), id);
    }
}

/// A listing ends the generation: every handle that was live is retired, and
/// the next generation begins at the watermarks.
pub proof fn lemma_listing_retires_generation<H>(
    state: AppStateView<H>,
    names: Seq<Seq<char>>,
    id: u32,
)
    requires
        state.wf(),
        state.reload is Listing,
        state.dicts.contains_key(id),
    ensures
        retired(state.step(ReloadEventView::Listed(names)).0, id),
        state.step(ReloadEventView::Listed(names)).0.first_id == state.id_watermark,
        state.step(ReloadEventView::Listed(names)).0.first_namespace == state.namespace_watermark,
{
}

/// A package that fails to open is passed over and nothing else: the
/// handles and the watermarks stay, and the reload goes on.
pub proof fn lemma_failed_open_is_skipped<H>(state: AppStateView<H>)
    requires
        state.wf(),
        state.reload is Opening,
    ensures
        state.step(ReloadEventView::OpenFailed).0.dicts == state.dicts,
        state.step(ReloadEventView::OpenFailed).0.id_watermark == state.id_watermark,
        state.step(ReloadEventView::OpenFailed).0.namespace_watermark == state.namespace_watermark,
        !(state.step(ReloadEventView::OpenFailed).1 is Done),
{
}

/// The registry whose packages are all dealt with, of which `proceed` makes
/// the result of a step that ends in `Save`.
spec fn before_save<H>(state: AppStateView<H>, event: ReloadEventView<H>) -> AppStateView<H> {
    match (state.reload, event) {
        (PhaseView::Listing, ReloadEventView::Listed(names)) => state.begun(names),
        (PhaseView::Opening { .. }, ReloadEventView::Opened { engine, end }) => if state.admits(
            end,
        ) {
            state.admitted(engine, end)
        } else {
            state.skipped()
        },
        _ => state.skipped(),
    }
}

/// What holds when a step ends in `Save`: the packages of the reload are the
/// handles of the generation, and the catalog was reconciled with them.
proof fn lemma_before_save<H>(state: AppStateView<H>, event: ReloadEventView<H>)
    requires
        state.wf(),
        state.step(event).1 is Save,
    ensures
        state.step(event).0.dicts == before_save(state, event).dicts,
        state.step(event).0.first_id == before_save(state, event).first_id,
        state.step(event).0.id_watermark == before_save(state, event).id_watermark,
        before_save(state, event).partitioned(),
        before_save(state, event).reload matches PhaseView::Opening { pending, next, opened }
            && before_save(state, event).mirrors(opened) && state.step(
            event,
        ).0.settings.config.dicts == reconciled(state.settings.config.dicts, opened),
{
    match (state.reload, event) {
        (PhaseView::Listing, ReloadEventView::Listed(names)) => {
            assert(state.begun(names).mirrors(Seq::empty()));
        },
        (PhaseView::Opening { pending, next, opened }, ReloadEventView::Opened { engine, end }) => {
            if state.admits(end) {
                lemma_admitted_partitioned(state, engine, end);
            }
        },
        _ => {},
    }
}

/// When a reload comes to saving the settings, the catalog names exactly the
/// handles of the new generation: every handle has an entry of its name, and
/// no entry is left of a package that is not loaded.
pub proof fn lemma_catalog_follows_registry<H>(
    state: AppStateView<H>,
    event: ReloadEventView<H>,
    name: Seq<char>,
)
    requires
        state.wf(),
        state.step(event).1 is Save,
    ensures
        names_entry(state.step(event).0.settings.config.dicts, name) <==> exists|id: u32| #[trigger]
            state.step(event).0.dicts.contains_key(id) && state.step(event).0.dicts[id].name
                == name,
{
    let after = state.step(event).0;
    let last = before_save(state, event);
    lemma_before_save(state, event);
    match last.reload {
        PhaseView::Opening { pending, next, opened } => {
            lemma_reconciled_names(state.settings.config.dicts, opened, name);
            if was_found(opened, name) {
                let k = choose|k: int| 0 <= k < opened.len() && (#[trigger] opened[k]).name == name;
                assert(after.dicts.contains_key(opened[k].id));
            }
            if exists|id: u32| #[trigger]
                after.dicts.contains_key(id) && after.dicts[id].name == name {
                let id = choose|id: u32| #[trigger]
                    after.dicts.contains_key(id) && after.dicts[id].name == name;
                let k = id - last.first_id;
                assert(opened[k].name == name);
            }
        },
        _ => {},
    }
}

/// When a reload comes to saving the settings and no two handles have one
/// name, the catalog carries the id of every handle: the first entry of the
/// handle's name has the handle's id.
pub proof fn lemma_catalog_carries_ids<H>(
    state: AppStateView<H>,
    event: ReloadEventView<H>,
    id: u32,
)
    requires
        state.wf(),
        state.step(event).1 is Save,
        state.step(event).0.dicts.contains_key(id),
        forall|a: u32, b: u32|
            #![trigger state.step(event).0.dicts[a], state.step(event).0.dicts[b]]
            state.step(event).0.dicts.contains_key(a) && state.step(event).0.dicts.contains_key(b)
                && a != b ==> state.step(event).0.dicts[a].name != state.step(
                event,
            ).0.dicts[b].name,
    ensures
        names_entry(state.step(event).0.settings.config.dicts, state.step(event).0.dicts[id].name),
        state.step(event).0.settings.config.dicts[first_named(
            state.step(event).0.settings.config.dicts,
            state.step(event).0.dicts[id].name,
        )].id == id,
{
    let after = state.step(event).0;
    let last = before_save(state, event);
    lemma_before_save(state, event);
    match last.reload {
        PhaseView::Opening { pending, next, opened } => {
            let k = id - last.first_id;
            assert(opened[k].id == id);
            assert forall|i: int, j: int| 0 <= i < j < opened.len() implies (#[trigger] opened[i]).name
                != (#[trigger] opened[j]).name by {
                assert(after.dicts.contains_key(opened[i].id));
                assert(after.dicts.contains_key(opened[j].id));
                assert(after.dicts[opened[i].id].name != after.dicts[opened[j].id].name);
            }
            assert(distinct_names(opened));
            lemma_latest_id_of_distinct(opened, k);
            lemma_reconciled_takes_fresh_id(state.settings.config.dicts, opened, k);
        },
        _ => {},
    }
}

} // verus!
