use curator::config::{base_url_default, iiif_base_default, listen_default, projects_default, Config};
use curator::model::{Action, AppState, Event, Item, Project, Projects, ScannedFile, StoreError};

fn item(manifest_id: &str) -> Item {
    Item { manifest_id: manifest_id.to_string(), label: None, description: None }
}

fn project(id: &str, name: &str, items: Vec<Item>) -> Project {
    Project { id: id.to_string(), name: name.to_string(), description: None, items }
}

/// A scanned file that holds `p`, named after its id with an extension.
fn doc(p: Project) -> ScannedFile {
    ScannedFile { name: format!("{}.yaml", p.id), document: Ok(p) }
}

/// A scanned file with this name that holds `p`.
fn named(name: &str, p: Project) -> ScannedFile {
    ScannedFile { name: name.to_string(), document: Ok(p) }
}

/// A scanned file that could not be read or parsed.
fn bad(e: StoreError) -> ScannedFile {
    ScannedFile { name: "broken.yaml".to_string(), document: Err(e) }
}

fn state(files: Vec<ScannedFile>) -> AppState {
    let config = Config::default();
    match AppState::new(config, files) {
        Ok(s) => s,
        Err(_) => panic!("the scan should index"),
    }
}

fn ids(projects: &[Project]) -> Vec<String> {
    let mut v: Vec<String> = projects.iter().map(|p| p.id.clone()).collect();
    v.sort();
    v
}

/// Plays the host's part for one operation over a directory held in memory,
/// keyed by file name. A written file is listed first, before any stale
/// file that states the same id.
fn drive(state: &mut AppState, dir: &mut Vec<(String, Project)>, first: Action) -> Result<(), StoreError> {
    let mut action = first;
    loop {
        action = match action {
            Action::Write(p) => {
                let name = p.id.clone();
                dir.retain(|(n, _)| *n != name);
                dir.insert(0, (name, p));
                state.resume(Event::Written(Ok(())))
            }
            Action::Scan => {
                let files = dir.iter().map(|(n, p)| named(n, p.clone())).collect();
                state.resume(Event::Scanned(files))
            }
            Action::Done(r) => return r,
        };
    }
}

#[test]
fn construction_lists_every_document_whatever_its_file_name() {
    let s = state(vec![
        doc(project("alpha", "A", vec![])),
        doc(project("beta", "B", vec![item("m1")])),
        doc(project("gamma", "C", vec![])),
    ]);
    assert_eq!(ids(&s.list()), vec!["alpha", "beta", "gamma"]);
}

#[test]
fn later_document_with_same_id_wins() {
    let s = state(vec![doc(project("alpha", "first", vec![])), doc(project("alpha", "second", vec![]))]);
    assert_eq!(s.list().len(), 1);
    assert_eq!(s.get("alpha").unwrap().name, "second");
}

#[test]
fn empty_directory_gives_empty_index() {
    let s = state(vec![]);
    assert!(s.list().is_empty());
}

#[test]
fn construction_fails_on_a_malformed_document() {
    let r = AppState::new(
        Config::default(),
        vec![
            doc(project("alpha", "A", vec![])),
            bad(StoreError::Parse("bad.yaml".to_string())),
            bad(StoreError::Io("other.yaml".to_string())),
        ],
    );
    match r {
        Err(StoreError::Parse(m)) => assert_eq!(m, "bad.yaml"),
        _ => panic!("expected the first parse error"),
    }
}

#[test]
fn get_of_unknown_id_is_absent() {
    let s = state(vec![doc(project("alpha", "A", vec![]))]);
    assert!(s.get("nope").is_none());
    assert!(s.get("").is_none());
}

#[test]
fn get_returns_independent_copy() {
    let s = state(vec![doc(project("alpha", "A", vec![item("m1")]))]);
    let mut p = s.get("alpha").unwrap();
    p.items.push(item("m2"));
    p.name = "changed".to_string();
    let q = s.get("alpha").unwrap();
    assert_eq!(q.name, "A");
    assert_eq!(q.items.len(), 1);
}

#[test]
fn save_then_get_reads_back_the_project() {
    let mut dir = vec![("alpha".to_string(), project("alpha", "A", vec![]))];
    let mut s = state(vec![named(&dir[0].0, dir[0].1.clone())]);
    let mut p = project("alpha", "Renamed", vec![item("m1"), item("m2")]);
    p.description = Some("about".to_string());
    let a = s.save(p);
    assert!(drive(&mut s, &mut dir, a).is_ok());
    let g = s.get("alpha").unwrap();
    assert_eq!(g.name, "Renamed");
    assert_eq!(g.description.as_deref(), Some("about"));
    let m: Vec<&str> = g.items.iter().map(|i| i.manifest_id.as_str()).collect();
    assert_eq!(m, vec!["m1", "m2"]);
}

#[test]
fn save_of_new_project_creates_file_and_lists_it() {
    let mut dir: Vec<(String, Project)> = vec![("a.yaml".to_string(), project("alpha", "A", vec![]))];
    let mut s = state(vec![named(&dir[0].0, dir[0].1.clone())]);
    let a = s.save(project("beta", "B", vec![]));
    assert!(drive(&mut s, &mut dir, a).is_ok());
    assert!(dir.iter().any(|(n, _)| n == "beta"));
    assert_eq!(ids(&s.list()), vec!["alpha", "beta"]);
}

#[test]
fn save_asks_for_a_write_of_the_project() {
    let mut s = state(vec![]);
    match s.save(project("beta", "B", vec![item("m1")])) {
        Action::Write(p) => {
            assert_eq!(p.id, "beta");
            assert_eq!(p.items[0].manifest_id, "m1");
        }
        _ => panic!("expected a write"),
    }
}

#[test]
fn failed_write_ends_without_reload() {
    let mut s = state(vec![doc(project("alpha", "A", vec![]))]);
    let a = s.resume(Event::Written(Err(StoreError::Io("disk full".to_string()))));
    match a {
        Action::Done(Err(StoreError::Io(m))) => assert_eq!(m, "disk full"),
        _ => panic!("expected the write error"),
    }
    assert_eq!(ids(&s.list()), vec!["alpha"]);
}

#[test]
fn successful_write_asks_for_reload() {
    let mut s = state(vec![]);
    assert!(matches!(s.resume(Event::Written(Ok(()))), Action::Scan));
}

#[test]
fn failed_enumeration_keeps_index() {
    let mut s = state(vec![doc(project("alpha", "A", vec![]))]);
    let a = s.resume(Event::ScanFailed(StoreError::Io("gone".to_string())));
    assert!(matches!(a, Action::Done(Err(StoreError::Io(_)))));
    assert_eq!(ids(&s.list()), vec!["alpha"]);
}

#[test]
fn reload_with_malformed_document_keeps_index() {
    let mut s = state(vec![doc(project("alpha", "A", vec![item("m1")]))]);
    let a = s.resume(Event::Scanned(vec![
        doc(project("beta", "B", vec![])),
        bad(StoreError::Parse("broken.yaml".to_string())),
    ]));
    match a {
        Action::Done(Err(StoreError::Parse(m))) => assert_eq!(m, "broken.yaml"),
        _ => panic!("expected the parse error"),
    }
    assert_eq!(ids(&s.list()), vec!["alpha"]);
    assert_eq!(s.get("alpha").unwrap().items.len(), 1);
    assert!(s.get("beta").is_none());
}

#[test]
fn update_replaces_the_whole_index() {
    let mut s = state(vec![doc(project("alpha", "A", vec![]))]);
    assert!(matches!(s.update(), Action::Scan));
    let a = s.resume(Event::Scanned(vec![doc(project("beta", "B", vec![])), doc(project("gamma", "C", vec![]))]));
    assert!(matches!(a, Action::Done(Ok(()))));
    assert_eq!(ids(&s.list()), vec!["beta", "gamma"]);
}

#[test]
fn add_items_scenario() {
    let mut dir = vec![("a.yaml".to_string(), project("alpha", "A", vec![]))];
    let mut s = state(vec![named(&dir[0].0, dir[0].1.clone())]);
    let listed = s.list();
    assert_eq!(listed.len(), 1);
    assert_eq!(listed[0].id, "alpha");

    let a = s.add_items("alpha", vec![item("m1")]);
    assert!(drive(&mut s, &mut dir, a).is_ok());
    let items = s.get("alpha").unwrap().items;
    assert_eq!(items.len(), 1);
    assert_eq!(items[0].manifest_id, "m1");
    assert!(items[0].label.is_none());
    assert!(items[0].description.is_none());

    let a = s.add_items("missing", vec![item("m2")]);
    match drive(&mut s, &mut dir, a) {
        Err(StoreError::NotFound(id)) => assert_eq!(id, "missing"),
        _ => panic!("expected not found"),
    }
    assert_eq!(ids(&s.list()), vec!["alpha"]);
    assert!(s.get("missing").is_none());
    assert_eq!(s.get("alpha").unwrap().items.len(), 1);
}

#[test]
fn add_items_twice_appends_in_call_order() {
    let mut dir = vec![("alpha".to_string(), project("alpha", "A", vec![item("o1"), item("o2")]))];
    let mut s = state(vec![named(&dir[0].0, dir[0].1.clone())]);
    let a = s.add_items("alpha", vec![item("a1"), item("a2")]);
    assert!(drive(&mut s, &mut dir, a).is_ok());
    let a = s.add_items("alpha", vec![item("b1")]);
    assert!(drive(&mut s, &mut dir, a).is_ok());
    let got: Vec<String> = s.get("alpha").unwrap().items.iter().map(|i| i.manifest_id.clone()).collect();
    assert_eq!(got, vec!["o1", "o2", "a1", "a2", "b1"]);
    assert_eq!(s.get("alpha").unwrap().name, "A");
}

#[test]
fn add_items_keeps_labels_and_descriptions() {
    let mut s = state(vec![doc(project("alpha", "A", vec![]))]);
    let mut it = item("m1");
    it.label = Some("Label".to_string());
    it.description = Some("Text".to_string());
    match s.add_items("alpha", vec![it]) {
        Action::Write(p) => {
            assert_eq!(p.items[0].label.as_deref(), Some("Label"));
            assert_eq!(p.items[0].description.as_deref(), Some("Text"));
        }
        _ => panic!("expected a write"),
    }
}

#[test]
fn saves_of_two_ids_are_both_retrievable() {
    let mut dir: Vec<(String, Project)> = vec![("old.yaml".to_string(), project("one", "stale", vec![]))];
    let mut s = state(vec![named(&dir[0].0, dir[0].1.clone())]);
    let a = s.save(project("one", "1", vec![]));
    assert!(drive(&mut s, &mut dir, a).is_ok());
    let b = s.save(project("two", "2", vec![item("x")]));
    assert!(drive(&mut s, &mut dir, b).is_ok());
    assert_eq!(s.get("one").unwrap().name, "1");
    assert_eq!(s.get("two").unwrap().items[0].manifest_id, "x");
    assert_eq!(ids(&s.list()), vec!["one", "two"]);
}

#[test]
fn written_file_wins_over_stale_copy_listed_later() {
    let mut dir = vec![("a.yaml".to_string(), project("alpha", "A", vec![]))];
    let mut s = state(vec![named(&dir[0].0, dir[0].1.clone())]);
    let a = s.add_items("alpha", vec![item("m1")]);
    assert!(drive(&mut s, &mut dir, a).is_ok());
    assert_eq!(dir[0].0, "alpha");
    assert_eq!(dir[1].0, "a.yaml");
    assert_eq!(s.get("alpha").unwrap().items[0].manifest_id, "m1");
    let a = s.update();
    assert!(drive(&mut s, &mut dir, a).is_ok());
    assert_eq!(s.get("alpha").unwrap().items.len(), 1);
    let a = s.update();
    let reversed: Vec<(String, Project)> = dir.iter().rev().cloned().collect();
    let mut dir = reversed;
    assert!(drive(&mut s, &mut dir, a).is_ok());
    assert_eq!(s.get("alpha").unwrap().items.len(), 1);
}

#[test]
fn reload_after_write_keeps_the_written_project_even_if_the_scan_does_not() {
    let mut s = state(vec![doc(project("alpha", "A", vec![]))]);
    let a = s.save(project("alpha", "New", vec![item("m9")]));
    assert!(matches!(a, Action::Write(_)));
    assert!(matches!(s.resume(Event::Written(Ok(()))), Action::Scan));
    let done = s.resume(Event::Scanned(vec![doc(project("alpha", "Stale", vec![]))]));
    assert!(matches!(done, Action::Done(Ok(()))));
    assert_eq!(s.get("alpha").unwrap().name, "New");
    let a = s.update();
    assert!(matches!(s.resume(Event::Scanned(vec![doc(project("alpha", "Stale", vec![]))])), Action::Done(Ok(()))));
    assert!(matches!(a, Action::Scan));
    assert_eq!(s.get("alpha").unwrap().name, "Stale");
}

#[test]
fn file_named_by_id_wins_in_any_scan_order() {
    let first = state(vec![named("alpha", project("alpha", "Named", vec![])), named("z.yaml", project("alpha", "Other", vec![]))]);
    let second = state(vec![named("z.yaml", project("alpha", "Other", vec![])), named("alpha", project("alpha", "Named", vec![]))]);
    assert_eq!(first.get("alpha").unwrap().name, "Named");
    assert_eq!(second.get("alpha").unwrap().name, "Named");
}

#[test]
fn add_items_with_empty_list_keeps_project() {
    let mut dir = vec![("alpha".to_string(), project("alpha", "A", vec![item("m1")]))];
    let mut s = state(vec![named(&dir[0].0, dir[0].1.clone())]);
    let a = s.add_items("alpha", vec![]);
    assert!(drive(&mut s, &mut dir, a).is_ok());
    let g = s.get("alpha").unwrap();
    assert_eq!(g.name, "A");
    assert_eq!(g.items.len(), 1);
    assert_eq!(g.items[0].manifest_id, "m1");
}

#[test]
fn repository_keeps_its_directory() {
    let p = match Projects::new("/data/projects", vec![]) {
        Ok(p) => p,
        Err(_) => panic!("empty scan indexes"),
    };
    assert_eq!(p.path(), "/data/projects");
    assert!(p.list().is_empty());
}

#[test]
fn repository_load_and_get() {
    let mut p = match Projects::new("dir", vec![doc(project("alpha", "A", vec![]))]) {
        Ok(p) => p,
        Err(_) => panic!("scan indexes"),
    };
    assert!(p.load(vec![doc(project("beta", "B", vec![]))]).is_ok());
    assert!(p.get("alpha").is_none());
    assert_eq!(p.get("beta").unwrap().name, "B");
    assert!(p.load(vec![bad(StoreError::Io("unreadable".to_string()))]).is_err());
    assert_eq!(p.get("beta").unwrap().name, "B");
}

#[test]
fn error_messages() {
    assert_eq!(StoreError::NotFound("x".to_string()).message(), "x");
    assert_eq!(StoreError::Io("disk".to_string()).message(), "disk");
    assert_eq!(StoreError::Parse("yaml".to_string()).message(), "yaml");
}

#[test]
fn config_defaults() {
    let c = Config::default();
    assert_eq!(c.urls.base_url, "http://localhost:3000");
    assert_eq!(c.urls.iiif_base, "/iiif/2");
    assert_eq!(c.projects_path, "./projects");
    assert_eq!(c.listen, "127.0.0.1:3000");
    assert_eq!(base_url_default(), "http://localhost:3000");
    assert_eq!(iiif_base_default(), "/iiif/2");
    assert_eq!(projects_default(), "./projects");
    assert_eq!(listen_default(), "127.0.0.1:3000");
}

#[test]
fn state_takes_directory_and_urls_from_config() {
    let mut c = Config::default();
    c.projects_path = "elsewhere".to_string();
    c.urls.base_url = "https://example.org".to_string();
    let s = match AppState::new(c, vec![]) {
        Ok(s) => s,
        Err(_) => panic!("empty scan indexes"),
    };
    assert_eq!(s.projects.path(), "elsewhere");
    assert_eq!(s.urls.base_url, "https://example.org");
}
