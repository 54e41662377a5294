use madison_rs::cache::{cached_query, RequestCache};
use madison_rs::query::split_packages;
use madison_rs::service::rocket;
use madison_rs::store::{query_store, refresh_step, RefreshEvent, RefreshOutcome};
use madison_rs::types::{KeyChoice, Listing, ListingDescriptor, PackageRecord};

fn one_listing(codename: &str, name: &str, version: &str) -> Listing {
    Listing {
        descriptor: ListingDescriptor {
            codename: codename.to_string(),
            component: "main".to_string(),
            arch: Some("amd64".to_string()),
        },
        records: vec![PackageRecord {
            name: name.to_string(),
            version: version.to_string(),
            source: None,
        }],
    }
}

#[test]
fn uninitialized_store_answers_empty() {
    let state = rocket();
    assert!(state.store.snapshot.is_none());
    let out = query_store(&state.store, vec!["foo".to_string()], None);
    assert_eq!(out, "\n");
}

#[test]
fn first_successful_build_makes_the_store_ready() {
    let mut state = rocket();
    let outcome = refresh_step(
        &mut state.store,
        RefreshEvent::Changed(vec![one_listing("focal", "foo", "1.0")]),
        KeyChoice::Codename,
    );
    assert_eq!(outcome, RefreshOutcome::Updated);
    assert_eq!(state.store.generation, 1);
    let out = query_store(&state.store, vec!["foo".to_string()], None);
    assert_eq!(out, "foo | 1.0 | focal | source, amd64\n");
}

#[test]
fn no_change_and_failed_checks_keep_the_snapshot() {
    let mut state = rocket();
    refresh_step(
        &mut state.store,
        RefreshEvent::Changed(vec![one_listing("focal", "foo", "1.0")]),
        KeyChoice::Codename,
    );
    let g = state.store.generation;
    assert_eq!(
        refresh_step(&mut state.store, RefreshEvent::NoChange, KeyChoice::Codename),
        RefreshOutcome::Unchanged
    );
    assert_eq!(
        refresh_step(&mut state.store, RefreshEvent::CheckFailed, KeyChoice::Codename),
        RefreshOutcome::Unchanged
    );
    assert_eq!(state.store.generation, g);
    let out = query_store(&state.store, vec!["foo".to_string()], None);
    assert_eq!(out, "foo | 1.0 | focal | source, amd64\n");
}

#[test]
fn failed_rebuild_retains_the_previous_snapshot() {
    let mut state = rocket();
    refresh_step(
        &mut state.store,
        RefreshEvent::Changed(vec![one_listing("focal", "foo", "1.0")]),
        KeyChoice::Codename,
    );
    let outcome = refresh_step(
        &mut state.store,
        RefreshEvent::Changed(vec![one_listing("focal", "foo", "2.0\u{e9}")]),
        KeyChoice::Codename,
    );
    assert_eq!(outcome, RefreshOutcome::BuildFailed);
    assert_eq!(state.store.generation, 1);
    let out = query_store(&state.store, vec!["foo".to_string()], None);
    assert_eq!(out, "foo | 1.0 | focal | source, amd64\n");
}

#[test]
fn cache_answers_and_survives_unchanged_snapshots() {
    let mut state = rocket();
    refresh_step(
        &mut state.store,
        RefreshEvent::Changed(vec![one_listing("focal", "foo", "1.0")]),
        KeyChoice::Codename,
    );
    let pkg = "foo".to_string();
    let first = cached_query(&mut state.cache, &state.store, &pkg, &None);
    assert_eq!(first, "foo | 1.0 | focal | source, amd64\n");
    assert_eq!(state.cache.entries.len(), 1);
    // A second identical request is answered from the cache, which keeps
    // its single entry.
    let second = cached_query(&mut state.cache, &state.store, &pkg, &None);
    assert_eq!(second, first);
    assert_eq!(state.cache.entries.len(), 1);
    // A no-change refresh leaves the generation alone and the entry valid.
    refresh_step(&mut state.store, RefreshEvent::NoChange, KeyChoice::Codename);
    let third = cached_query(&mut state.cache, &state.store, &pkg, &None);
    assert_eq!(third, first);
    assert_eq!(state.cache.entries.len(), 1);
}

#[test]
fn mapping_change_invalidates_cached_responses() {
    let mut state = rocket();
    refresh_step(
        &mut state.store,
        RefreshEvent::Changed(vec![one_listing("focal", "foo", "1.0")]),
        KeyChoice::Codename,
    );
    let pkg = "foo".to_string();
    let stale = cached_query(&mut state.cache, &state.store, &pkg, &None);
    assert_eq!(stale, "foo | 1.0 | focal | source, amd64\n");
    refresh_step(
        &mut state.store,
        RefreshEvent::Changed(vec![one_listing("focal", "foo", "2.0")]),
        KeyChoice::Codename,
    );
    let fresh = cached_query(&mut state.cache, &state.store, &pkg, &None);
    assert_eq!(fresh, "foo | 2.0 | focal | source, amd64\n");
    assert_eq!(state.cache.entries.len(), 1);
}

#[test]
fn cache_sync_clears_only_on_generation_change() {
    let mut cache = RequestCache::new();
    cache.insert("foo".to_string(), None, "answer\n".to_string());
    cache.sync_generation(0);
    assert_eq!(cache.entries.len(), 1);
    assert!(cache.lookup(&"foo".to_string(), &None).is_some());
    cache.sync_generation(1);
    assert_eq!(cache.entries.len(), 0);
    assert!(cache.lookup(&"foo".to_string(), &None).is_none());
}

#[test]
fn cache_keys_distinguish_the_filter() {
    let mut cache = RequestCache::new();
    cache.insert("foo".to_string(), Some("focal".to_string()), "a\n".to_string());
    assert!(cache.lookup(&"foo".to_string(), &None).is_none());
    assert!(cache.lookup(&"foo".to_string(), &Some("bionic".to_string())).is_none());
    let hit = cache.lookup(&"foo".to_string(), &Some("focal".to_string()));
    assert_eq!(hit.unwrap(), "a\n");
}

#[test]
fn split_packages_splits_on_single_spaces() {
    let words = split_packages(&"foo bar".to_string());
    assert_eq!(words, vec!["foo".to_string(), "bar".to_string()]);
    let empty = split_packages(&"".to_string());
    assert_eq!(empty, vec!["".to_string()]);
    let doubled = split_packages(&"a  b".to_string());
    assert_eq!(doubled, vec!["a".to_string(), "".to_string(), "b".to_string()]);
}

#[test]
fn cached_query_serves_multi_package_requests() {
    let mut state = rocket();
    refresh_step(
        &mut state.store,
        RefreshEvent::Changed(vec![
            one_listing("focal", "foo", "1.0"),
            one_listing("focal", "bar", "2.0"),
        ]),
        KeyChoice::Codename,
    );
    let req = "bar foo".to_string();
    let out = cached_query(&mut state.cache, &state.store, &req, &None);
    assert_eq!(
        out,
        "bar | 2.0 | focal | source, amd64\nfoo | 1.0 | focal | source, amd64\n"
    );
}
