use beluga::assets::AssetCache;
use beluga::base::{AppState, ReloadEvent};
use beluga::server::{
    cached_file, candidate_port, find_entry, find_resource, get_entry, get_resource,
    get_static_file, refuse, serve_file, Lookup, RequestError, Response, ScriptCache, StaticFile,
    DICT_JS_FILE, FIRST_PORT, PORT_ATTEMPTS,
};
use beluga::settings::{Configuration, DictItem, Settings};

fn loaded() -> AppState<u8> {
    let config = Configuration::with_dict_dir("/data/dicts".to_string());
    let mut state = AppState::new(Settings::new("settings.json".to_string(), config));
    state.load_dictionaries(ReloadEvent::Requested);
    state.load_dictionaries(ReloadEvent::Listed(vec!["en".to_string(), "fr".to_string()]));
    state.load_dictionaries(ReloadEvent::Opened { engine: 11, end: 500 });
    state.load_dictionaries(ReloadEvent::Opened { engine: 22, end: 800 });
    state.load_dictionaries(ReloadEvent::Saved);
    state
}

fn settings(catalog: Vec<DictItem>) -> Settings {
    let mut config = Configuration::with_dict_dir("/data/dicts".to_string());
    config.dicts = catalog;
    Settings::new("settings.json".to_string(), config)
}

fn target(file: &str, content_type: &str) -> StaticFile {
    StaticFile {
        root: "/d".to_string(),
        file: file.to_string(),
        content_type: content_type.to_string(),
    }
}

fn item(id: u32, name: &str) -> DictItem {
    DictItem { id, name: name.to_string(), available: true }
}

fn page_as_written(style: &str, script: &str, bootstrap: &str, content: &str) -> String {
    format!(
        "
<!DOCTYPE html>
<html lang=\"en\">
    <head>
        <meta charset=\"UTF-8\" />
        <meta name=\"viewport\" content=\"width=device-width, initial-scale=1.0\" />
        <title></title>
        <style>{}</style>
        <script>{}</script>
        <script>{}</script>
    </head>
    <body>{}</body>
</html>
            ",
        style, script, bootstrap, content
    )
}

#[test]
fn refusals_become_responses() {
    assert_eq!(refuse(RequestError::NotFound), Response::NotFound);
    assert_eq!(refuse(RequestError::BadClientInput), Response::BadRequest);
}

#[test]
fn entry_request_finds_live_dictionaries_only() {
    let state = loaded();
    assert_eq!(find_entry(&state, 1).unwrap().engine, 11);
    assert_eq!(find_entry(&state, 2).unwrap().engine, 22);
    assert_eq!(find_entry(&state, 0).err(), Some(RequestError::NotFound));
    assert_eq!(find_entry(&state, 3).err(), Some(RequestError::NotFound));
    assert_eq!(find_entry(&state, u32::MAX).err(), Some(RequestError::NotFound));
}

#[test]
fn entry_without_content_is_not_found() {
    let fragments = Some(("css".to_string(), "js".to_string()));
    assert_eq!(get_entry(1, Lookup::Absent, fragments.clone(), "boot"), Response::NotFound);
    assert_eq!(get_entry(1, Lookup::TimedOut, fragments, "boot"), Response::NotFound);
}

#[test]
fn entry_page_holds_style_script_bootstrap_and_content_in_order() {
    let response = get_entry(
        7,
        Lookup::Found("<b>word</b>".to_string()),
        Some(("p { color: red }".to_string(), "let d = 1;".to_string())),
        "let boot = 2;",
    );
    assert_eq!(
        response,
        Response::Page {
            cookie: "dict_id=7".to_string(),
            html: page_as_written("p { color: red }", "let d = 1;", "let boot = 2;", "<b>word</b>"),
        }
    );
}

#[test]
fn entry_page_of_a_dictionary_without_fragments_has_none() {
    let response = get_entry(12, Lookup::Found("text".to_string()), None, "");
    assert_eq!(
        response,
        Response::Page {
            cookie: "dict_id=12".to_string(),
            html: page_as_written("", "", "", "text"),
        }
    );
}

#[test]
fn entry_page_of_an_empty_entry_is_still_a_page() {
    let response = get_entry(1, Lookup::Found(String::new()), None, "b");
    assert_eq!(
        response,
        Response::Page { cookie: "dict_id=1".to_string(), html: page_as_written("", "", "b", "") }
    );
}

#[test]
fn resource_request_is_resolved_by_the_cookie() {
    let state = loaded();
    assert_eq!(find_resource(&state, Some("2")).unwrap().name, "fr");
    assert_eq!(find_resource(&state, Some("+1")).unwrap().name, "en");
    assert_eq!(find_resource(&state, None).err(), Some(RequestError::NotFound));
    assert_eq!(find_resource(&state, Some("two")).err(), Some(RequestError::BadClientInput));
    assert_eq!(find_resource(&state, Some("")).err(), Some(RequestError::BadClientInput));
    assert_eq!(find_resource(&state, Some("3")).err(), Some(RequestError::NotFound));
    assert_eq!(find_resource(&state, Some("0")).err(), Some(RequestError::NotFound));
}

#[test]
fn resource_response_is_the_bytes_or_not_found() {
    assert_eq!(get_resource(Lookup::Found(vec![1, 2, 3])), Response::Resource(vec![1, 2, 3]));
    assert_eq!(get_resource(Lookup::Found(vec![])), Response::Resource(vec![]));
    assert_eq!(get_resource(Lookup::Absent), Response::NotFound);
    assert_eq!(get_resource(Lookup::TimedOut), Response::NotFound);
    assert_eq!(Lookup::Found(3).into_found(), Some(3));
    assert_eq!(Lookup::<u8>::Absent.into_found(), None);
    assert_eq!(Lookup::<u8>::TimedOut.into_found(), None);
}

#[test]
fn static_file_is_joined_below_the_package_of_the_selected_dictionary() {
    let settings = settings(vec![item(1, "en"), item(2, "fr")]);
    assert_eq!(
        get_static_file(&settings, Some("2"), "/css/main.css"),
        Ok(StaticFile {
            root: "/data/dicts/fr".to_string(),
            file: "/data/dicts/fr/css/main.css".to_string(),
            content_type: "text/css".to_string(),
        })
    );
    assert_eq!(
        get_static_file(&settings, Some("1"), "/img/a.b/logo.PNG"),
        Ok(StaticFile {
            root: "/data/dicts/en".to_string(),
            file: "/data/dicts/en/img/a.b/logo.PNG".to_string(),
            content_type: "image/png".to_string(),
        })
    );
}

#[test]
fn static_file_cannot_leave_the_package_by_an_absolute_path() {
    let settings = settings(vec![item(1, "en")]);
    assert_eq!(
        get_static_file(&settings, Some("1"), "//etc/passwd").unwrap().file,
        "/data/dicts/en/etc/passwd"
    );
    assert_eq!(get_static_file(&settings, Some("1"), "/").unwrap().file, "/data/dicts/en/");
    assert_eq!(get_static_file(&settings, Some("1"), "").unwrap().file, "/data/dicts/en/");
    assert_eq!(
        get_static_file(&settings, Some("1"), "\\\\host\\share").unwrap().file,
        "/data/dicts/en/\\\\host\\share"
    );
    assert_eq!(get_static_file(&settings, Some("1"), "/\\x").unwrap().file, "/data/dicts/en/\\x");
}

#[test]
fn static_file_path_with_dot_dot_slash_is_refused() {
    let settings = settings(vec![item(1, "en")]);
    for path in [
        "/../secret.txt",
        "../secret.txt",
        "/a/../../secret.txt",
        "/a/b/..",
        "/..",
        "..",
        "/a../b",
        "/a/.../b",
        "/css/../../../etc/passwd",
    ] {
        assert_eq!(
            get_static_file(&settings, Some("1"), path),
            Err(RequestError::BadClientInput),
            "for {:?}",
            path
        );
    }
    for path in [
        "/a/..b/c", "/a/.b", "/..a", "/a.b..c/d", "/. ./a", "/%2e%2e/a", "/x..", "/a/...", "...",
        "/a/..\\b",
    ] {
        assert!(get_static_file(&settings, Some("1"), path).is_ok(), "for {:?}", path);
    }
    assert_eq!(
        get_static_file(&settings, Some("1"), "/x.."),
        Ok(StaticFile {
            root: "/data/dicts/en".to_string(),
            file: "/data/dicts/en/x..".to_string(),
            content_type: "application/octet-stream".to_string(),
        })
    );
}

#[test]
fn static_file_of_a_dictionary_off_the_catalog_is_not_found() {
    let settings = settings(vec![item(1, "en")]);
    assert_eq!(get_static_file(&settings, Some("2"), "/a.css"), Err(RequestError::NotFound));
    assert_eq!(get_static_file(&settings, None, "/a.css"), Err(RequestError::NotFound));
    assert_eq!(get_static_file(&settings, None, "/../a.css"), Err(RequestError::NotFound));
    assert_eq!(
        get_static_file(&settings, Some("x"), "/a.css"),
        Err(RequestError::BadClientInput)
    );
    assert_eq!(get_static_file(&settings, Some("2"), "/../a.css"), Err(RequestError::NotFound));
    assert_eq!(get_static_file(&settings, Some("2"), ".."), Err(RequestError::NotFound));
    assert_eq!(
        get_static_file(&settings, Some("x"), "/../a.css"),
        Err(RequestError::BadClientInput)
    );
    assert_eq!(
        get_static_file(&settings, Some("1"), "/../a.css"),
        Err(RequestError::BadClientInput)
    );
}

#[test]
fn static_file_takes_the_first_catalog_entry_of_the_id() {
    let settings = settings(vec![item(1, "en"), item(1, "fr")]);
    assert_eq!(get_static_file(&settings, Some("1"), "/a").unwrap().file, "/data/dicts/en/a");
}

#[test]
fn static_file_without_extension_is_an_octet_stream() {
    let settings = settings(vec![item(1, "en")]);
    for path in ["/README", "/a.b/README", "/.hidden", "/dir.d/", "/file."] {
        assert_eq!(
            get_static_file(&settings, Some("1"), path).unwrap().content_type,
            "application/octet-stream",
            "for {:?}",
            path
        );
    }
    assert_eq!(
        get_static_file(&settings, Some("1"), "/a.unknown-extension").unwrap().content_type,
        "application/octet-stream"
    );
}

#[test]
fn file_that_was_read_is_served_and_cached() {
    let mut cache = AssetCache::new(4);
    let wanted =
        target("/d/en/a.css", "text/css");
    assert_eq!(cached_file(&cache, &wanted), None);
    let response = serve_file(
        &mut cache,
        target("/d/en/a.css", "text/css"),
        Some(vec![1, 2, 3]),
    );
    let expected =
        Response::File { content_type: "text/css".to_string(), content: vec![1, 2, 3] };
    assert_eq!(response, expected);
    assert_eq!(cached_file(&cache, &wanted), Some(expected));
}

#[test]
fn file_that_could_not_be_read_is_not_found_and_not_cached() {
    let mut cache = AssetCache::new(4);
    let wanted =
        target("/d/en/a.css", "text/css");
    let response = serve_file(
        &mut cache,
        target("/d/en/a.css", "text/css"),
        None,
    );
    assert_eq!(response, Response::NotFound);
    assert_eq!(cached_file(&cache, &wanted), None);
}

#[test]
fn file_is_cached_if_and_only_if_it_is_no_larger_than_one_mebibyte() {
    let mut cache = AssetCache::new(4);
    let small = target("/d/small", "a/b");
    let large = target("/d/large", "a/b");
    let response = serve_file(
        &mut cache,
        target("/d/small", "a/b"),
        Some(vec![7; 1024 * 1024]),
    );
    assert!(matches!(response, Response::File { ref content, .. } if content.len() == 1024 * 1024));
    let response = serve_file(
        &mut cache,
        target("/d/large", "a/b"),
        Some(vec![7; 1024 * 1024 + 1]),
    );
    assert!(
        matches!(response, Response::File { ref content, .. } if content.len() == 1024 * 1024 + 1)
    );
    assert!(cached_file(&cache, &small).is_some());
    assert!(cached_file(&cache, &large).is_none());
}

#[test]
fn bootstrap_script_is_kept_once_it_was_read() {
    let mut cache = ScriptCache::new();
    assert_eq!(cache.script(), None);
    assert_eq!(cache.fill(None), "");
    assert_eq!(cache.script(), None);
    assert_eq!(cache.fill(Some("let a = 1;".to_string())), "let a = 1;");
    assert_eq!(cache.script(), Some("let a = 1;"));
    assert_eq!(cache.fill(Some("let a = 2;".to_string())), "let a = 1;");
    assert_eq!(cache.fill(None), "let a = 1;");
    assert_eq!(cache.script(), Some("let a = 1;"));
    assert_eq!(DICT_JS_FILE, "entry.js");
}

#[test]
fn server_tries_a_hundred_ports_from_19000() {
    assert_eq!((FIRST_PORT, PORT_ATTEMPTS), (19000, 100));
    assert_eq!(candidate_port(0), Some(19000));
    assert_eq!(candidate_port(1), Some(19001));
    assert_eq!(candidate_port(99), Some(19099));
    assert_eq!(candidate_port(100), None);
    assert_eq!(candidate_port(u32::MAX), None);
}
