use beluga::base::{AppState, ReloadAction, ReloadError, ReloadEvent};
use beluga::server::{find_entry, find_resource, get_entry, Lookup, RequestError, Response};
use beluga::settings::{Configuration, DictItem, Settings};

fn fresh(dict_dir: &str, catalog: Vec<DictItem>) -> AppState<&'static str> {
    let mut config = Configuration::with_dict_dir(dict_dir.to_string());
    config.dicts = catalog;
    AppState::new(Settings::new("settings.json".to_string(), config))
}

fn item(id: u32, name: &str, available: bool) -> DictItem {
    DictItem { id, name: name.to_string(), available }
}

fn names(list: &[&str]) -> Vec<String> {
    list.iter().map(|name| name.to_string()).collect()
}

/// Runs a whole reload in which every package opens and takes `sizes[i]`
/// namespaces.
fn reload(state: &mut AppState<&'static str>, packages: &[(&str, &'static str, u32)]) {
    let listing = names(&packages.iter().map(|p| p.0).collect::<Vec<_>>());
    assert!(matches!(state.load_dictionaries(ReloadEvent::Requested), ReloadAction::List { .. }));
    let mut action = state.load_dictionaries(ReloadEvent::Listed(listing));
    for (name, engine, size) in packages {
        match action {
            ReloadAction::Open { name: asked, start } => {
                assert_eq!(&asked, name);
                action = state.load_dictionaries(ReloadEvent::Opened { engine, end: start + size });
            }
            other => panic!("expected a package to open, got {:?}", other),
        }
    }
    assert_eq!(action, ReloadAction::Save);
    assert_eq!(state.load_dictionaries(ReloadEvent::Saved), ReloadAction::Done(Ok(())));
}

#[test]
fn new_registry_is_empty_and_idle() {
    let state = fresh("/data/dicts", vec![]);
    assert!(state.get_dictionary(0).is_none());
    assert!(state.get_dictionary(1).is_none());
    assert_eq!(state.settings().config.dict_dir, "/data/dicts");
    assert_eq!(state.settings().server_port, 0);
}

#[test]
fn two_packages_get_ids_and_namespaces_in_discovery_order() {
    let mut state = fresh("/data/dicts", vec![]);
    assert_eq!(
        state.load_dictionaries(ReloadEvent::Requested),
        ReloadAction::List { dir: "/data/dicts".to_string() }
    );
    assert_eq!(
        state.load_dictionaries(ReloadEvent::Listed(names(&["en", "fr"]))),
        ReloadAction::Open { name: "en".to_string(), start: 0 }
    );
    assert_eq!(
        state.load_dictionaries(ReloadEvent::Opened { engine: "EN", end: 500 }),
        ReloadAction::Open { name: "fr".to_string(), start: 500 }
    );
    assert_eq!(
        state.load_dictionaries(ReloadEvent::Opened { engine: "FR", end: 800 }),
        ReloadAction::Save
    );
    assert_eq!(state.load_dictionaries(ReloadEvent::Saved), ReloadAction::Done(Ok(())));

    let en = state.get_dictionary(1).unwrap();
    assert_eq!((en.id, en.name.as_str(), en.start, en.end, en.engine), (1, "en", 0, 500, "EN"));
    let fr = state.get_dictionary(2).unwrap();
    assert_eq!((fr.id, fr.name.as_str(), fr.start, fr.end, fr.engine), (2, "fr", 500, 800, "FR"));
    assert!(state.get_dictionary(3).is_none());
    assert_eq!(state.settings().config.dicts, vec![item(1, "en", true), item(2, "fr", true)]);

    let target = find_entry(&state, 1).unwrap();
    assert_eq!(target.engine, "EN");
    let page = get_entry(1, Lookup::Found("<p>hello</p>".to_string()), None, "");
    match page {
        Response::Page { cookie, .. } => assert_eq!(cookie, "dict_id=1"),
        other => panic!("expected a page, got {:?}", other),
    }
    let selected = find_resource(&state, Some("1")).unwrap();
    assert_eq!((selected.name.as_str(), selected.engine), ("en", "EN"));
}

#[test]
fn package_that_fails_to_open_is_passed_over() {
    let mut state = fresh("/data/dicts", vec![item(4, "en", false), item(5, "fr", false)]);
    state.load_dictionaries(ReloadEvent::Requested);
    assert_eq!(
        state.load_dictionaries(ReloadEvent::Listed(names(&["en", "fr"]))),
        ReloadAction::Open { name: "en".to_string(), start: 0 }
    );
    assert_eq!(
        state.load_dictionaries(ReloadEvent::OpenFailed),
        ReloadAction::Open { name: "fr".to_string(), start: 0 }
    );
    assert_eq!(
        state.load_dictionaries(ReloadEvent::Opened { engine: "FR", end: 300 }),
        ReloadAction::Save
    );
    assert_eq!(state.load_dictionaries(ReloadEvent::Saved), ReloadAction::Done(Ok(())));

    let fr = state.get_dictionary(1).unwrap();
    assert_eq!((fr.id, fr.name.as_str(), fr.start, fr.end), (1, "fr", 0, 300));
    assert!(state.get_dictionary(2).is_none());
    assert_eq!(state.settings().config.dicts, vec![item(1, "fr", false)]);
}

#[test]
fn k_failures_among_n_packages_leave_n_minus_k_handles() {
    let mut state = fresh("/data/dicts", vec![]);
    state.load_dictionaries(ReloadEvent::Requested);
    state.load_dictionaries(ReloadEvent::Listed(names(&["a", "b", "c", "d", "e"])));
    state.load_dictionaries(ReloadEvent::Opened { engine: "A", end: 10 });
    state.load_dictionaries(ReloadEvent::OpenFailed);
    state.load_dictionaries(ReloadEvent::Opened { engine: "C", end: 10 });
    state.load_dictionaries(ReloadEvent::OpenFailed);
    assert_eq!(
        state.load_dictionaries(ReloadEvent::Opened { engine: "E", end: 25 }),
        ReloadAction::Save
    );
    let loaded: Vec<(u32, String, u32, u32)> = (0..10)
        .filter_map(|id| state.get_dictionary(id))
        .map(|handle| (handle.id, handle.name.clone(), handle.start, handle.end))
        .collect();
    assert_eq!(
        loaded,
        vec![
            (1, "a".to_string(), 0, 10),
            (2, "c".to_string(), 10, 10),
            (3, "e".to_string(), 10, 25)
        ]
    );
}

#[test]
fn failed_listing_leaves_everything_unchanged() {
    let mut state = fresh("/data/dicts", vec![item(9, "old", false)]);
    reload(&mut state, &[("en", "EN", 500), ("fr", "FR", 300)]);
    let catalog_before = state.settings().config.dicts.clone();

    assert_eq!(
        state.load_dictionaries(ReloadEvent::Requested),
        ReloadAction::List { dir: "/data/dicts".to_string() }
    );
    assert_eq!(
        state.load_dictionaries(ReloadEvent::ListingFailed),
        ReloadAction::Done(Err(ReloadError::Discovery))
    );

    let en = state.get_dictionary(1).unwrap();
    assert_eq!((en.name.as_str(), en.start, en.end, en.engine), ("en", 0, 500, "EN"));
    let fr = state.get_dictionary(2).unwrap();
    assert_eq!((fr.name.as_str(), fr.start, fr.end, fr.engine), ("fr", 500, 800, "FR"));
    assert!(state.get_dictionary(3).is_none());
    assert_eq!(state.settings().config.dicts, catalog_before);

    // Both watermarks are where they were: the next reload goes on from them.
    state.load_dictionaries(ReloadEvent::Requested);
    assert_eq!(
        state.load_dictionaries(ReloadEvent::Listed(names(&["de"]))),
        ReloadAction::Open { name: "de".to_string(), start: 800 }
    );
    state.load_dictionaries(ReloadEvent::Opened { engine: "DE", end: 900 });
    assert_eq!(state.get_dictionary(3).unwrap().name, "de");
}

#[test]
fn reload_without_packages_empties_the_registry() {
    let mut state = fresh("/data/dicts", vec![]);
    reload(&mut state, &[("en", "EN", 500)]);
    assert!(state.get_dictionary(1).is_some());

    state.load_dictionaries(ReloadEvent::Requested);
    assert_eq!(state.load_dictionaries(ReloadEvent::Listed(vec![])), ReloadAction::Save);
    assert_eq!(state.load_dictionaries(ReloadEvent::Saved), ReloadAction::Done(Ok(())));
    assert!(state.get_dictionary(1).is_none());
    assert_eq!(state.settings().config.dicts, vec![]);
}

#[test]
fn ids_and_namespaces_are_never_handed_out_twice() {
    let mut state = fresh("/data/dicts", vec![]);
    reload(&mut state, &[("en", "EN", 500), ("fr", "FR", 300)]);
    reload(&mut state, &[("fr", "FR2", 300), ("en", "EN2", 500)]);

    assert!(state.get_dictionary(1).is_none());
    assert!(state.get_dictionary(2).is_none());
    let fr = state.get_dictionary(3).unwrap();
    assert_eq!((fr.id, fr.name.as_str(), fr.start, fr.end, fr.engine), (3, "fr", 800, 1100, "FR2"));
    let en = state.get_dictionary(4).unwrap();
    assert_eq!((en.id, en.name.as_str(), en.start, en.end, en.engine), (4, "en", 1100, 1600, "EN2"));
    assert_eq!(state.settings().config.dicts, vec![item(4, "en", true), item(3, "fr", true)]);
}

#[test]
fn namespaces_of_a_generation_are_disjoint_and_contiguous() {
    let mut state = fresh("/data/dicts", vec![]);
    reload(&mut state, &[("warm", "W", 17)]);
    reload(&mut state, &[("a", "A", 5), ("b", "B", 0), ("c", "C", 40), ("d", "D", 1)]);
    let handles: Vec<_> = (0..20).filter_map(|id| state.get_dictionary(id)).collect();
    assert_eq!(handles.len(), 4);
    assert_eq!(handles[0].start, 17);
    for pair in handles.windows(2) {
        assert_eq!(pair[0].end, pair[1].start);
        assert_eq!(pair[0].id + 1, pair[1].id);
    }
    for handle in &handles {
        assert!(handle.start <= handle.end);
    }
    assert_eq!(handles[3].end, 17 + 5 + 40 + 1);
    for (i, one) in handles.iter().enumerate() {
        for other in &handles[i + 1..] {
            assert_ne!(one.id, other.id);
            assert!(one.end <= other.start);
        }
    }
}

#[test]
fn report_that_ends_before_it_begins_is_passed_over() {
    let mut state = fresh("/data/dicts", vec![]);
    reload(&mut state, &[("en", "EN", 500)]);
    state.load_dictionaries(ReloadEvent::Requested);
    assert_eq!(
        state.load_dictionaries(ReloadEvent::Listed(names(&["bad", "good"]))),
        ReloadAction::Open { name: "bad".to_string(), start: 500 }
    );
    assert_eq!(
        state.load_dictionaries(ReloadEvent::Opened { engine: "BAD", end: 499 }),
        ReloadAction::Open { name: "good".to_string(), start: 500 }
    );
    assert_eq!(
        state.load_dictionaries(ReloadEvent::Opened { engine: "GOOD", end: 500 }),
        ReloadAction::Save
    );
    let good = state.get_dictionary(2).unwrap();
    assert_eq!((good.name.as_str(), good.start, good.end), ("good", 500, 500));
    assert!(state.get_dictionary(3).is_none());
    assert_eq!(state.settings().config.dicts, vec![item(2, "good", true)]);
}

#[test]
fn failed_save_is_reported_and_the_registry_stays_reloaded() {
    let mut state = fresh("/data/dicts", vec![item(3, "gone", true)]);
    state.load_dictionaries(ReloadEvent::Requested);
    state.load_dictionaries(ReloadEvent::Listed(names(&["en"])));
    assert_eq!(
        state.load_dictionaries(ReloadEvent::Opened { engine: "EN", end: 500 }),
        ReloadAction::Save
    );
    assert_eq!(
        state.load_dictionaries(ReloadEvent::SaveFailed),
        ReloadAction::Done(Err(ReloadError::Persistence))
    );
    assert_eq!(state.get_dictionary(1).unwrap().name, "en");
    assert_eq!(state.settings().config.dicts, vec![item(1, "en", true)]);
    assert!(state.unsaved());
    state.settings_saved();
    assert!(!state.unsaved());
    // The reload is over: the next one starts.
    assert!(matches!(state.load_dictionaries(ReloadEvent::Requested), ReloadAction::List { .. }));
}

#[test]
fn event_out_of_turn_changes_nothing() {
    let mut state = fresh("/data/dicts", vec![item(3, "kept", false)]);
    let refused = ReloadAction::Done(Err(ReloadError::OutOfTurn));
    assert_eq!(state.load_dictionaries(ReloadEvent::Listed(names(&["en"]))), refused);
    assert_eq!(state.load_dictionaries(ReloadEvent::ListingFailed), refused);
    assert_eq!(state.load_dictionaries(ReloadEvent::Opened { engine: "EN", end: 5 }), refused);
    assert_eq!(state.load_dictionaries(ReloadEvent::OpenFailed), refused);
    assert_eq!(state.load_dictionaries(ReloadEvent::Saved), refused);
    assert_eq!(state.load_dictionaries(ReloadEvent::SaveFailed), refused);
    assert!(state.get_dictionary(1).is_none());
    assert_eq!(state.settings().config.dicts, vec![item(3, "kept", false)]);

    state.load_dictionaries(ReloadEvent::Requested);
    assert_eq!(state.load_dictionaries(ReloadEvent::Requested), refused);
    assert_eq!(state.load_dictionaries(ReloadEvent::Saved), refused);
    assert_eq!(
        state.load_dictionaries(ReloadEvent::Listed(names(&["en"]))),
        ReloadAction::Open { name: "en".to_string(), start: 0 }
    );
    assert_eq!(state.load_dictionaries(ReloadEvent::Requested), refused);
    assert_eq!(state.load_dictionaries(ReloadEvent::Listed(vec![])), refused);
    assert_eq!(
        state.load_dictionaries(ReloadEvent::Opened { engine: "EN", end: 5 }),
        ReloadAction::Save
    );
    assert_eq!(state.load_dictionaries(ReloadEvent::OpenFailed), refused);
    assert_eq!(state.load_dictionaries(ReloadEvent::Saved), ReloadAction::Done(Ok(())));
    assert_eq!(state.get_dictionary(1).unwrap().end, 5);
}

#[test]
fn available_flag_survives_a_reload_by_name() {
    let mut state = fresh("/data/dicts", vec![item(3, "french", false)]);
    reload(&mut state, &[("english", "EN", 10), ("french", "FR", 10)]);
    assert_eq!(
        state.settings().config.dicts,
        vec![item(2, "french", false), item(1, "english", true)]
    );
}

#[test]
fn cookie_of_a_former_generation_finds_nothing() {
    let mut state = fresh("/data/dicts", vec![]);
    reload(&mut state, &[("en", "EN", 500), ("fr", "FR", 300)]);
    assert_eq!(find_resource(&state, Some("2")).unwrap().name, "fr");

    reload(&mut state, &[("en", "EN", 500)]);
    assert_eq!(find_resource(&state, Some("1")).err(), Some(RequestError::NotFound));
    assert_eq!(find_resource(&state, Some("2")).err(), Some(RequestError::NotFound));
    assert_eq!(find_resource(&state, Some("3")).unwrap().name, "en");

    // Also while the next generation is being loaded.
    state.load_dictionaries(ReloadEvent::Requested);
    assert_eq!(find_resource(&state, Some("3")).unwrap().name, "en");
    state.load_dictionaries(ReloadEvent::Listed(names(&["fr", "en"])));
    assert_eq!(find_resource(&state, Some("3")).err(), Some(RequestError::NotFound));
    state.load_dictionaries(ReloadEvent::Opened { engine: "FR", end: 1600 });
    assert_eq!(find_resource(&state, Some("3")).err(), Some(RequestError::NotFound));
    assert_eq!(find_resource(&state, Some("4")).unwrap().name, "fr");
}

#[test]
fn settings_of_the_registry_can_be_replaced() {
    let mut state = fresh("/data/dicts", vec![]);
    reload(&mut state, &[("en", "EN", 500)]);
    let mut config = Configuration::with_dict_dir("/other".to_string());
    config.dicts = vec![item(1, "en", false)];
    state.set_config(config);
    state.set_server_port(19003);
    assert_eq!(state.settings().config.dict_dir, "/other");
    assert_eq!(state.settings().config.dicts, vec![item(1, "en", false)]);
    assert_eq!(state.settings().server_port, 19003);
    assert_eq!(state.settings().file, "settings.json");
    assert_eq!(state.get_dictionary(1).unwrap().name, "en");
    assert_eq!(
        state.load_dictionaries(ReloadEvent::Requested),
        ReloadAction::List { dir: "/other".to_string() }
    );
}

#[test]
fn catalog_is_unsaved_from_the_reconciliation_to_a_save_that_succeeds() {
    let mut state = fresh("/data/dicts", vec![]);
    assert!(!state.unsaved());
    state.load_dictionaries(ReloadEvent::Requested);
    state.load_dictionaries(ReloadEvent::Listed(names(&["en"])));
    assert!(!state.unsaved());
    assert_eq!(
        state.load_dictionaries(ReloadEvent::Opened { engine: "EN", end: 500 }),
        ReloadAction::Save
    );
    assert!(state.unsaved());
    assert_eq!(state.load_dictionaries(ReloadEvent::Saved), ReloadAction::Done(Ok(())));
    assert!(!state.unsaved());

    state.set_config(Configuration::with_dict_dir("/other".to_string()));
    assert!(state.unsaved());
    state.set_server_port(19000);
    assert!(state.unsaved());
    state.settings_saved();
    assert!(!state.unsaved());
    state.set_server_port(19001);
    assert!(!state.unsaved());

    state.load_dictionaries(ReloadEvent::Requested);
    assert_eq!(
        state.load_dictionaries(ReloadEvent::ListingFailed),
        ReloadAction::Done(Err(ReloadError::Discovery))
    );
    assert!(!state.unsaved());
}
