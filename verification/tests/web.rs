//! Addresses, the pages behind them, and what a page may reach.
use daboss::abort;
use daboss::address::{self, LocationPart, UrlParts};
use daboss::engine::NavRequest;
use daboss::fetch::{self, FetchOutcome};
use daboss::history::{self, NavCall};
use daboss::opfs::{self, Handles, OpenStep, Platform, RemoveStep, WriteKind};
use daboss::performance::{Bound, Endpoint, EntryFilter, PerformanceEntry, Timeline};
use daboss::permissions::{self, PermissionsPolicy};
use daboss::registry::Registry;
use daboss::text;
use daboss::timers::TimerState;

fn url(s: &str) -> Option<UrlParts> {
    address::resolve(None, s)
}

#[test]
fn location_and_history_reflect_url_state() {
    let mut page = history::open_page(url("https://example.com/one"));
    assert_eq!(
        address::location_get(&page.location, LocationPart::Href),
        "https://example.com/one"
    );
    assert_eq!(address::location_get(&page.location, LocationPart::Pathname), "/one");
    history::history_push_or_replace(&mut page, Some("/two"), false);
    assert_eq!(
        address::location_get(&page.location, LocationPart::Href),
        "https://example.com/two"
    );
    assert_eq!(page.history.history_get_length(), 2);
    history::history_push_or_replace(&mut page, Some("/three"), true);
    assert_eq!(page.history.history_get_length(), 2);
    assert_eq!(page.history.entries[1].url, "https://example.com/three");
}

#[test]
fn location_assign_enqueues_nav_request() {
    let mut requests: Vec<NavRequest> = Vec::new();
    history::enqueue_nav(&mut requests, NavCall::Assign("https://example.com/next".to_string()));
    let reqs = history::drain_nav_requests(&mut requests);
    assert_eq!(reqs.len(), 1);
    assert!(matches!(reqs[0], NavRequest::Assign(ref u) if u == "https://example.com/next"));
    assert!(requests.is_empty());
    history::enqueue_nav(&mut requests, NavCall::Back);
    history::enqueue_nav(&mut requests, NavCall::Forward);
    history::enqueue_nav(&mut requests, NavCall::Go(None));
    history::enqueue_nav(&mut requests, NavCall::Reload);
    assert!(matches!(requests[0], NavRequest::Go(-1)));
    assert!(matches!(requests[1], NavRequest::Go(1)));
}

#[test]
fn addresses_have_their_parts() {
    let u = url("https://user@Example.com:8443/a/../b?q=1#frag");
    let get = |p| address::location_get(&u, p);
    assert_eq!(get(LocationPart::Protocol), "https:");
    assert_eq!(get(LocationPart::Hostname), "example.com");
    assert_eq!(get(LocationPart::Port), "8443");
    assert_eq!(get(LocationPart::Host), "example.com:8443");
    assert_eq!(get(LocationPart::Pathname), "/b");
    assert_eq!(get(LocationPart::Search), "?q=1");
    assert_eq!(get(LocationPart::Hash), "#frag");
    assert_eq!(get(LocationPart::Origin), "https://example.com:8443");
    assert!(url("nowhere").is_none());
    let origin = |s: &str| address::location_get(&url(s), LocationPart::Origin);
    assert_eq!(origin("https://a.b:8443/c?d"), "https://a.b:8443");
    assert_eq!(origin("https://a.b:443/"), "https://a.b");
    assert_eq!(origin("ws://[::1]/"), "ws://[::1]");
    assert_eq!(origin("ftp://a.b/c"), "ftp://a.b");
    assert_eq!(origin("blob:https://a.b:8443/c"), "https://a.b:8443");
    assert_eq!(origin("blob:blob:http://a.b/"), "http://a.b");
    for none in ["file:///a", "data:,x", "blob:x", "blob:", "mailto:a@b", "blob:data:,x"] {
        assert_eq!(origin(none), "null");
    }
    // However deep addresses lie inside one another, they are read.
    let deep = format!("{}https://a.b/", "blob:".repeat(1000));
    assert_eq!(origin(&deep), "https://a.b");
    let deeper = "blob:".repeat(100_000);
    assert_eq!(url(&deeper).unwrap().scheme, "blob");
    assert!(address::resolve(Some("https://a.b/"), &deeper).is_some());
    let joined = address::resolve(Some("https://a.b/c/d"), "../e");
    assert_eq!(address::location_get(&joined, LocationPart::Href), "https://a.b/e");
    assert_eq!(address::location_get(&None, LocationPart::Pathname), "");
}

#[test]
fn fetch_without_client_returns_stub_promise() {
    let request = fetch::js_fetch(None, "https://example.com/", None, None).ok().unwrap();
    let resp = fetch::answer_fetch(&request.url, &FetchOutcome::NoClient);
    assert_eq!(resp.ok.to_string(), "false");
    assert_eq!(resp.status.to_string(), "0");
    assert_eq!(resp.body, "");
}

#[test]
fn await_fetch_works_inside_async_function() {
    let resp = fetch::answer_fetch("https://example.com/", &FetchOutcome::NoClient);
    assert_eq!(resp.ok.to_string(), "false");
}

#[test]
fn answers_show_what_the_server_said() {
    let request =
        fetch::js_fetch(Some("https://a.b/c"), "d", Some("post"), Some("x=1")).ok().unwrap();
    assert_eq!(request.url, "https://a.b/d");
    assert_eq!(request.post, Some(b"x=1".to_vec()));
    assert_eq!(request.content_type, fetch::post_content_type());
    let get = fetch::js_fetch(Some("https://a.b/c"), "d", None, Some("x=1")).ok().unwrap();
    assert_eq!(get.post, None);
    assert!(fetch::js_fetch(None, "d", None, None).is_err());
    let fine = fetch::answer_fetch(
        "u",
        &FetchOutcome::Answered { status: 201, reason: "Created".to_string(), body: b"hi".to_vec() },
    );
    assert!(fine.ok && fine.status == 201 && fine.body == "hi" && fine.status_text == "Created");
    let bad = fetch::answer_fetch(
        "u",
        &FetchOutcome::Answered { status: 404, reason: "no".to_string(), body: vec![0xff] },
    );
    assert!(!bad.ok);
    assert_eq!(bad.body, "\u{fffd}");
    let failed = fetch::answer_fetch("u", &FetchOutcome::Failed("down".to_string()));
    assert!(!failed.ok && failed.status_text.contains("down"));
    assert_eq!(fetch::post_content_type(), "application/x-www-form-urlencoded");
}

#[test]
fn partition_key_collapses_when_top_equals_inner() {
    assert_eq!(
        opfs::partitioned_origin_host(
            &url("https://example.com/"),
            &url("https://example.com/page")
        ),
        "example.com"
    );
}

#[test]
fn partition_key_combines_top_and_inner_when_different() {
    let host = opfs::partitioned_origin_host(
        &url("https://example.com/"),
        &url("https://tracker.example.net/widget"),
    );
    assert!(
        host.contains("example.com") && host.contains("tracker.example.net"),
        "partition host {host:?} should include both"
    );
    assert!(
        host.contains("__"),
        "partition host {host:?} should use double-underscore separator"
    );
}

#[test]
fn partition_key_isolates_same_inner_across_different_tops() {
    let inner = url("https://ads.example/widget");
    let a = opfs::partitioned_origin_host(&url("https://news.example/"), &inner);
    let b = opfs::partitioned_origin_host(&url("https://blog.example/"), &inner);
    assert_ne!(a, b, "{a} should not equal {b}");
    assert_eq!(opfs::current_origin_host(&inner), "ads.example");
    assert_eq!(opfs::current_origin_host(&None), "default");
    let once = opfs::sanitise_path_component("..a/b:c.");
    assert_eq!(once, "a_b_c");
    assert_eq!(opfs::sanitise_path_component(&once), once);
}

#[test]
fn files_stay_inside_their_directories() {
    let mut handles = Handles::new();
    let root = handles.register_dir(vec!["data".to_string(), "x".to_string()]);
    assert_eq!(
        opfs::child_of(&handles, Some(root), "a.txt").unwrap().last().unwrap(),
        "a.txt"
    );
    assert!(opfs::child_of(&handles, Some(root), "a..b").is_ok());
    assert!(opfs::child_of(&handles, Some(root), "1:x").is_ok());
    for name in ["..", ".", "", "a/b", "a\\b", "C:x", "z:"] {
        assert!(opfs::child_of(&handles, Some(root), name).is_err());
    }
    assert!(opfs::child_of(&handles, None, "a").is_err());
    assert_eq!(opfs::dir_get_file_handle(true, false, false).ok(), Some(OpenStep::Open));
    assert_eq!(opfs::dir_get_file_handle(false, false, true).ok(), Some(OpenStep::Create));
    assert!(opfs::dir_get_file_handle(false, false, false).is_err());
    assert_eq!(opfs::dir_get_directory_handle(false, true, true).ok(), Some(OpenStep::Create));
    assert!(opfs::dir_get_directory_handle(true, true, true)
        .unwrap_err()
        .starts_with("TypeMismatchError"));
    assert_eq!(opfs::dir_remove_entry(true, false, false).ok(), Some(RemoveStep::File));
    assert_eq!(opfs::dir_remove_entry(true, true, true).ok(), Some(RemoveStep::Tree));
    assert_eq!(opfs::dir_remove_entry(true, true, false).ok(), Some(RemoveStep::EmptyDir));
    assert_eq!(opfs::dir_remove_entry(false, false, false).unwrap_err(), "NotFoundError");
    assert_eq!(opfs::finish_remove(false).unwrap_err(), "InvalidModificationError");
    let path = opfs::child_of(&handles, Some(root), "sub").unwrap();
    let sub = opfs::finish_open(&mut handles, path, true, true).unwrap();
    assert_eq!(
        opfs::dir_resolve(&handles, Some(root), Some(sub), None),
        Some(vec!["sub".to_string()])
    );
    assert!(opfs::finish_open(&mut handles, vec![], true, false).is_err());
    assert_eq!(opfs::sanitise_path_component("a/b:c"), "a_b_c");
    let dir = opfs::data_dir_path(
        Platform::LinuxOrAndroid,
        &None,
        &Some("/home/me".to_string()),
        &None,
        "/tmp",
    );
    assert_eq!(dir[0], "/home/me");
    let root_dir = opfs::origin_root(&dir, "opfs", "example.com");
    assert_eq!(root_dir.last().unwrap(), "example.com");
    assert_eq!(opfs::write_kind(Some("seek")), WriteKind::Seek);
    assert_eq!(opfs::write_kind(None), WriteKind::Data);
    assert_eq!(opfs::directory_size(&vec![1, 2, 3]), 6);
    let sorted = opfs::list_children(vec![("b".to_string(), true), ("a".to_string(), false)]);
    assert_eq!(sorted[0].0, "a");
    let w = handles.open_writer(vec!["t".to_string()], None);
    assert!(handles.take_writer(w).is_some());
    assert!(handles.take_writer(w).is_none());
}

#[test]
fn policies_rule_features() {
    let mut policy = PermissionsPolicy { rules: Vec::new() };
    assert!(permissions::allows(&policy, "camera", None));
    permissions::set_policy(
        &mut policy,
        PermissionsPolicy {
            rules: vec![
                ("camera".to_string(), vec![]),
                ("geolocation".to_string(), vec!["https://a.b".to_string()]),
                ("fullscreen".to_string(), vec!["*".to_string()]),
            ],
        },
    );
    assert!(!permissions::allows(&policy, "camera", Some("https://a.b")));
    assert!(permissions::allows(&policy, "geolocation", Some("https://a.b")));
    assert!(!permissions::allows(&policy, "geolocation", Some("https://c.d")));
    assert!(permissions::allows(&policy, "fullscreen", None));
    assert!(permissions::allows(&policy, "midi", None));
    let all = permissions::features();
    let some = permissions::allowed_features(&policy, None);
    assert!(some.len() < all.len());
    assert!(!some.contains(&"camera".to_string()));
}

#[test]
fn aborting_reaches_followers_once() {
    let mut signals = Registry::new();
    let a = abort::create_signal(&mut signals, false, 0u32);
    abort::attach_handle(&mut signals, a, 50);
    abort::signal_add_event_listener(&mut signals, a, "abort", 60);
    abort::signal_add_event_listener(&mut signals, a, "other", 61);
    let b = abort::create_signal(&mut signals, false, 0u32);
    abort::signal_add_event_listener(&mut signals, b, "abort", 62);
    abort::signal_remove_event_listener(&mut signals, b);
    assert!(abort::fire_abort(&mut signals, &mut vec![b], 7).unwrap().listeners.is_empty());
    let (any, at_once) = abort::signal_static_any(&mut signals, &vec![a], 0);
    assert!(at_once.is_none());
    let mut pending = vec![a];
    let first = abort::fire_abort(&mut signals, &mut pending, 7).unwrap();
    assert_eq!((first.id, first.handle, first.listeners), (a, Some(50), vec![60]));
    let second = abort::fire_abort(&mut signals, &mut pending, 7).unwrap();
    assert_eq!(second.id, any);
    assert!(abort::fire_abort(&mut signals, &mut pending, 7).is_none());
    assert!(abort::signal_is_aborted(&signals, any));
    assert_eq!(abort::signal_throw_if_aborted(&signals, a), Some(7));
    let mut again = vec![a];
    assert!(abort::fire_abort(&mut signals, &mut again, 8).is_none());
    let (_, reason) = abort::signal_static_any(&mut signals, &vec![a], 0);
    assert_eq!(reason, Some(7));
}

#[test]
fn timelines_are_measured_and_watched() {
    let mut t: Timeline<char, i64> = Timeline::new();
    let mark = |name: &str, at: i64| PerformanceEntry {
        name: name.to_string(),
        entry_type: "mark".to_string(),
        start_time_ms: at,
        duration_ms: 0,
    };
    t.record_entry(mark("a", 5));
    let o = t.observer_ctor('x');
    t.observer_observe(o, &vec!["mark".to_string()], true);
    t.record_entry(mark("b", 9));
    let calls = t.drain_observers();
    assert_eq!(calls.len(), 2);
    assert_eq!(calls[0].entries[0].name, "a");
    assert_eq!(calls[1].entries[0].name, "b");
    assert_eq!(calls[0].list_get_by_name("a").len(), 1);
    assert_eq!(calls[0].list_get_by_name("b").len(), 0);
    assert_eq!(calls[1].list_get_by_type("mark").len(), 1);
    assert_eq!(calls[1].list_get_by_type("measure").len(), 0);
    assert_eq!(t.lookup_mark("b"), Some(9));
    assert_eq!(t.lookup_mark("c"), None);
    let filter = EntryFilter { name: Some("a".to_string()), entry_type: None };
    assert_eq!(t.get_entries(&filter).len(), 1);
    let (from, to) = t.resolve_measure_bounds(
        &Some(Endpoint::Mark("a".to_string())),
        &Some(Endpoint::Time(20)),
        None,
    );
    assert_eq!(from, Bound::At(5));
    assert_eq!(to, Bound::At(20));
    let (from, to) = t.resolve_measure_bounds(&None, &None, None);
    assert_eq!((from, to), (Bound::Zero, Bound::Now));
    t.performance_clear_marks(&Some("a".to_string()));
    assert_eq!(t.lookup_mark("a"), None);
    t.observer_disconnect(o);
    t.record_entry(mark("d", 1));
    assert!(t.drain_observers().is_empty());
    t.performance_clear_measures(&None);
    assert_eq!(t.lookup_mark("b"), Some(9));
}

#[test]
fn timers_fire_when_they_are_due() {
    let mut timers: TimerState<char> = TimerState::new();
    timers.set_timeout('b', 20, 0);
    timers.set_timeout('a', 10, 0);
    timers.set_interval('c', 5, 0);
    assert_eq!(timers.next_timer_at(), Some(5_000_000));
    assert!(timers.drain_due_timers(4_999_999).is_empty());
    let due = |timers: &mut TimerState<char>, now: u64| -> Vec<char> {
        timers.drain_due_timers(now).into_iter().map(|t| t.callback).collect()
    };
    assert_eq!(due(&mut timers, 5_000_000), vec!['c']);
    assert_eq!(timers.next_timer_at(), Some(10_000_000));
    let mut rest = due(&mut timers, 30_000_000);
    rest.sort();
    assert_eq!(rest, vec!['a', 'b']);
    assert!(timers.next_timer_at().is_none());
}

#[test]
fn texts_are_cut_and_joined() {
    let cs: Vec<char> = " a, b ".chars().collect();
    assert_eq!(text::to_text(&text::trim(&cs)), "a, b");
    assert!(text::same_ignoring_case("AbC", "aBc"));
    assert!(!text::same("a", "A"));
    let parts = text::split(&text::to_chars("x-y-"), text::CharClass::Is('-'));
    assert_eq!(parts.len(), 3);
    assert_eq!(text::to_text(&text::join(&parts, "+")), "x+y+");
}
