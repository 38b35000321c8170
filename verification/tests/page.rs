//! Pages: their trees, how scripts find and change nodes, and how events reach them.
use daboss::animations;
use daboss::bindings::{self, Access, Constant, Shape};
use daboss::canvas::{self, CanvasContext};
use daboss::class_list;
use daboss::dialog::{self, PopoverAction, Popovers, ReturnValues};
use daboss::dom;
use daboss::engine::{self, NavRequest};
use daboss::events::{self, Dispatch, EventInit, EventValue, Listeners};
use daboss::formdata::{FormDataState, FormDataValue};
use daboss::forms::{self, CustomValidity, NumberVerdict, ValidityFlags};
use daboss::markup;
use daboss::media::{CaptureBindings, SourceObject};
use daboss::mse::MediaRegistry;
use daboss::mutate;
use daboss::observers::{self, Extent, LaidOut, MutationKind, ObserverState, Sight};
use daboss::scripts;
use daboss::selector;
use daboss::style;
use daboss::timers::{AnimationFrameQueue, TimerState};
use daboss::tree::{Dom, NodeId, NodeKind};

fn attributes(text: &str) -> Vec<(String, String)> {
    let mut out = Vec::new();
    let cs: Vec<char> = text.chars().collect();
    let mut i = 0;
    while i < cs.len() {
        while i < cs.len() && cs[i].is_whitespace() {
            i += 1;
        }
        let start = i;
        while i < cs.len() && !cs[i].is_whitespace() && cs[i] != '=' {
            i += 1;
        }
        if start == i {
            break;
        }
        let name: String = cs[start..i].iter().collect();
        let mut value = String::new();
        if i < cs.len() && cs[i] == '=' {
            i += 1;
            if i < cs.len() && (cs[i] == '"' || cs[i] == '\'') {
                let quote = cs[i];
                i += 1;
                while i < cs.len() && cs[i] != quote {
                    value.push(cs[i]);
                    i += 1;
                }
                i += 1;
            } else {
                while i < cs.len() && !cs[i].is_whitespace() {
                    value.push(cs[i]);
                    i += 1;
                }
            }
        }
        out.push((name, value));
    }
    out
}

fn page(html: &str) -> Dom {
    let mut dom = Dom::new();
    let mut open = vec![dom.document()];
    let mut rest = html;
    while !rest.is_empty() {
        let top = open[open.len() - 1];
        if let Some(tail) = rest.strip_prefix("</") {
            let end = tail.find('>').unwrap();
            open.pop();
            rest = &tail[end + 1..];
        } else if let Some(tail) = rest.strip_prefix('<') {
            let end = tail.find('>').unwrap();
            let inside = &tail[..end];
            let name_end = inside.find(char::is_whitespace).unwrap_or(inside.len());
            let tag = inside[..name_end].to_string();
            let void = tag == "input" || tag == "br";
            let id = dom.create_element(tag, attributes(&inside[name_end..]));
            dom.append_child(top, id);
            rest = &tail[end + 1..];
            if !void {
                open.push(id);
            }
        } else {
            let end = rest.find('<').unwrap_or(rest.len());
            let id = dom.create_text(rest[..end].to_string());
            dom.append_child(top, id);
            rest = &rest[end..];
        }
    }
    dom
}

fn body(html: &str) -> Dom {
    page(&format!("<html><body>{html}</body></html>"))
}

fn attr(dom: &Dom, id: NodeId, name: &str) -> Option<String> {
    match &dom.node(id).kind {
        NodeKind::Element { attrs, .. } => {
            attrs.iter().find(|(k, _)| k == name).map(|(_, v)| v.clone())
        }
        _ => None,
    }
}

fn tag(dom: &Dom, id: NodeId) -> String {
    match &dom.node(id).kind {
        NodeKind::Element { tag, .. } => tag.clone(),
        _ => String::new(),
    }
}

fn set(dom: &mut Dom, id: NodeId, name: &str, value: &str) {
    let mut slot: Option<ObserverState> = None;
    let mut media = MediaRegistry::new();
    mutate::element_set_attribute(dom, &mut slot, &mut media, id, name, value);
}

#[test]
fn read_title_finds_title_text() {
    let dom = page("<html><head><title>Hello</title></head><body></body></html>");
    assert_eq!(dom::read_title(&dom), "Hello");
}

#[test]
fn find_by_id_walks_the_tree() {
    let dom = page("<html><body><div><p id=target>X</p></div></body></html>");
    let id = dom::find_by_id(&dom, "target").expect("id present");
    if let NodeKind::Element { tag, .. } = &dom.node(id).kind {
        assert_eq!(tag, "p");
    } else {
        panic!("not an element");
    }
    assert!(dom::find_by_id(&dom, "other").is_none());
}

#[test]
fn text_content_concatenates_descendants() {
    let dom = page("<html><body><div>a<span>b</span>c</div></body></html>");
    let root = dom::find_root_element(&dom).unwrap();
    let div = dom::find_descendant_by_tag(&dom, root, "div").unwrap();
    assert_eq!(dom::text_content_of(&dom, div), "abc");
}

#[test]
fn run_does_not_panic_with_dom_lookups() {
    let dom = page("<html><body><div id='hi' data-x='42'>hello</div><script>1</script></body></html>");
    let el = dom::find_by_id(&dom, "hi").unwrap();
    assert_eq!(dom::element_get_tag_name(&dom, el), "DIV");
    assert_eq!(dom::read_attr(&dom, el, "ID"), Some("hi".to_string()));
    assert_eq!(dom::text_content_of(&dom, el), "hello");
    assert_eq!(dom::read_attr(&dom, el, "data-x"), Some("42".to_string()));
    assert!(dom::element_has_attribute(&dom, el, "id"));
    assert!(!dom::element_has_attribute(&dom, el, "class"));
}

#[test]
fn collect_matching_supports_class_and_tag() {
    let dom = page(
        r#"<html><body>
                <div class="foo">A</div>
                <p class="foo">B</p>
                <p class="bar">C</p>
            </body></html>"#,
    );
    let sels = selector::parse_selector_list_str("p.foo").unwrap();
    let hits = dom::collect_matching(&dom, &sels, false);
    assert_eq!(hits.len(), 1);
    if let NodeKind::Element { tag, .. } = &dom.node(hits[0]).kind {
        assert_eq!(tag, "p");
    } else {
        panic!("not an element");
    }
}

#[test]
fn collect_matching_first_only_short_circuits() {
    let dom = page(r#"<html><body><span>1</span><span>2</span><span>3</span></body></html>"#);
    let sels = selector::parse_selector_list_str("span").unwrap();
    let first = dom::collect_matching(&dom, &sels, true);
    assert_eq!(first.len(), 1);
    let all = dom::collect_matching(&dom, &sels, false);
    assert_eq!(all.len(), 3);
}

#[test]
fn query_selector_descendant_combinator_works() {
    let dom = page(
        r#"<html><body>
                <div><p class="inner">A</p></div>
                <p class="inner">B</p>
            </body></html>"#,
    );
    let sels = selector::parse_selector_list_str("div p.inner").unwrap();
    let hits = dom::collect_matching(&dom, &sels, false);
    assert_eq!(hits.len(), 1);
}

#[test]
fn set_attribute_via_js_mutates_dom() {
    let mut dom = page("<html><body><div id='hi' data-x='old'>x</div></body></html>");
    let el = dom::find_by_id(&dom, "hi").unwrap();
    set(&mut dom, el, "data-x", "new");
    set(&mut dom, el, "id", "renamed");
    set(&mut dom, el, "class", "big");
    let renamed = dom::find_by_id(&dom, "renamed").expect("renamed lookup");
    assert_eq!(attr(&dom, renamed, "data-x").unwrap(), "new");
    assert_eq!(attr(&dom, renamed, "class").unwrap(), "big");
}

#[test]
fn text_content_setter_replaces_children() {
    let mut dom =
        page("<html><body><div id='hi'>old<span>nested</span>tail</div></body></html>");
    let div = dom::find_by_id(&dom, "hi").unwrap();
    let mut slot: Option<ObserverState> = None;
    mutate::element_set_text_content(&mut dom, &mut slot, div, "replaced".to_string());
    assert_eq!(dom::text_content_of(&dom, div), "replaced");
    let kids = dom.children(div);
    assert_eq!(kids.len(), 1);
    assert!(matches!(dom.node(kids[0]).kind, NodeKind::Text(_)));
}

#[test]
fn remove_attribute_via_js_works() {
    let mut dom = page("<html><body><div id='hi' data-x='42'>x</div></body></html>");
    let div = dom::find_by_id(&dom, "hi").unwrap();
    let mut slot: Option<ObserverState> = None;
    mutate::element_remove_attribute(&mut dom, &mut slot, div, "data-x");
    assert!(attr(&dom, div, "data-x").is_none());
    assert!(attr(&dom, div, "id").is_some());
}

#[test]
fn class_list_add_remove_toggle_round_trip() {
    let mut dom = page("<html><body><div id='hi'>x</div></body></html>");
    let id = dom::find_by_id(&dom, "hi").unwrap();
    class_list::class_list_add(&mut dom, &mut None, id, &vec!["a".to_string(), "b".to_string()]);
    class_list::class_list_add(&mut dom, &mut None, id, &vec!["a".to_string()]);
    class_list::class_list_remove(&mut dom, &mut None, id, &vec!["a".to_string()]);
    assert!(class_list::class_list_toggle(&mut dom, &mut None, id, "c", None));
    assert!(!class_list::class_list_toggle(&mut dom, &mut None, id, "b", None));
    let has_c = class_list::class_list_contains(&dom, id, "c");
    set(&mut dom, id, "data-has", &has_c.to_string());
    assert_eq!(attr(&dom, id, "class").as_deref(), Some("c"));
    assert_eq!(attr(&dom, id, "data-has").as_deref(), Some("true"));
}

#[test]
fn append_child_and_remove_child_actually_mutate_dom() {
    let mut dom = page("<html><body><div id='hi'></div></body></html>");
    let hi = dom::find_by_id(&dom, "hi").unwrap();
    let p = dom.create_element("p".to_string(), Vec::new());
    set(&mut dom, p, "id", "new");
    let mut slot: Option<ObserverState> = None;
    mutate::element_set_text_content(&mut dom, &mut slot, p, "created".to_string());
    mutate::element_append_child(&mut dom, &mut slot, hi, p);
    let new_id = dom::find_by_id(&dom, "new").expect("new node");
    assert_eq!(dom::text_content_of(&dom, new_id), "created");
    assert_eq!(tag(&dom, new_id), "p");
    mutate::element_remove_child(&mut dom, &mut slot, hi, p);
    assert!(dom::find_by_id(&dom, "new").is_none());
}

#[test]
fn inner_html_setter_replaces_children() {
    let mut dom = page("<html><body><div id='hi'>old</div></body></html>");
    let div = dom::find_by_id(&dom, "hi").unwrap();
    let parsed = page("<span>hello</span>");
    mutate::element_set_inner_html(&mut dom, &mut None, div, &parsed);
    let kids = dom.children(div);
    assert_eq!(kids.len(), 1);
    assert_eq!(tag(&dom, kids[0]), "span");
    assert_eq!(dom::text_content_of(&dom, div), "hello");
}

#[test]
fn inner_html_getter_serialises_children() {
    let dom = page("<html><body><div id='hi'><span class=\"x\">y</span></div></body></html>");
    let id = dom::find_by_id(&dom, "hi").unwrap();
    let h = markup::serialize_children(&dom, id);
    assert!(h.contains("<span"));
    assert!(h.contains("y"));
    assert_eq!(h, "<span class=\"x\">y</span>");
}

#[test]
fn matches_and_closest_work() {
    let mut dom = page("<html><body><div id='outer' class='outer'><p id='inner' class='inner'>x</p></div></body></html>");
    let inner = dom::find_by_id(&dom, "inner").unwrap();
    let matched = dom::element_matches(&dom, inner, "p.inner");
    let ancestor = dom::element_closest(&dom, inner, "div.outer");
    let shown = format!(
        "{matched},{}",
        ancestor.and_then(|a| attr(&dom, a, "id")).unwrap_or("null".to_string())
    );
    set(&mut dom, inner, "data-result", &shown);
    assert_eq!(attr(&dom, inner, "data-result").as_deref(), Some("true,outer"));
}

#[test]
fn style_set_property_writes_inline_style() {
    let mut dom = page("<html><body><div id='hi'></div></body></html>");
    let id = dom::find_by_id(&dom, "hi").unwrap();
    style::style_set_property(&mut dom, &mut None, id, "color", "red");
    style::style_set_property(&mut dom, &mut None, id, "font-size", "20px");
    let shown = style::style_get_property_value(&dom, id, "color");
    set(&mut dom, id, "data-color", &shown);
    let style = attr(&dom, id, "style").unwrap_or_default();
    assert!(style.contains("color: red"));
    assert!(style.contains("font-size: 20px"));
    assert_eq!(attr(&dom, id, "data-color").as_deref(), Some("red"));
}

#[test]
fn dataset_reflects_data_attributes() {
    let dom = page("<html><body><div id='hi' data-user-name='alice'></div></body></html>");
    let id = dom::find_by_id(&dom, "hi").unwrap();
    let data = style::element_get_dataset(&dom, id);
    assert_eq!(data, vec![("userName".to_string(), "alice".to_string())]);
}

#[test]
fn finds_inline_script() {
    let dom = page("<html><body><script>1+1</script></body></html>");
    let found = scripts::collect_inline_scripts(&dom);
    assert_eq!(found.len(), 1);
    assert!(found[0].contains("1+1"));
}

#[test]
fn skips_external_script() {
    let dom = page(r#"<html><body><script src="x.js"></script></body></html>"#);
    let found = scripts::collect_inline_scripts(&dom);
    assert!(found.is_empty());
}

#[test]
fn skips_non_js_type() {
    let dom = page(r#"<html><body><script type="application/ld+json">{}</script></body></html>"#);
    let found = scripts::collect_inline_scripts(&dom);
    assert!(found.is_empty());
}

#[test]
fn dom_is_returned_unchanged() {
    let dom = page("<html><body><div id=x>hi</div><script>1</script></body></html>");
    let before = scripts::collect_inline_scripts(&dom).len();
    let after = scripts::collect_inline_scripts(&dom).len();
    assert_eq!(before, after);
    assert_eq!(dom::query_selector_all(&dom, "div#x").len(), 1);
}

#[test]
fn dispatch_runs_registered_listener_on_target() {
    let mut dom = page("<html><body><div id='hi'>x</div></body></html>");
    let target = dom::find_by_id(&dom, "hi").unwrap();
    let mut listeners: Listeners<u32> = Listeners::new();
    listeners.element_add_event_listener(target, "click".to_string(), 7);
    let mut run = Dispatch::begin(&mut dom, "click".to_string(), target, true);
    while let Some((node, callback)) = run.next_call(&listeners) {
        assert_eq!(callback, 7);
        set(&mut dom, node, "id", "clicked");
    }
    assert!(dom::find_by_id(&dom, "clicked").is_some());
}

#[test]
fn dispatch_bubbles_and_can_stop_propagation() {
    let mut dom =
        page("<html><body><div id='outer'><div id='inner'>x</div></div></body></html>");
    let outer = dom::find_by_id(&dom, "outer").unwrap();
    let inner = dom::find_by_id(&dom, "inner").unwrap();
    let mut listeners: Listeners<u32> = Listeners::new();
    listeners.element_add_event_listener(outer, "click".to_string(), 1);
    listeners.element_add_event_listener(inner, "click".to_string(), 2);
    let mut run = Dispatch::begin(&mut dom, "click".to_string(), inner, true);
    while let Some((node, callback)) = run.next_call(&listeners) {
        if callback == 1 {
            set(&mut dom, node, "data-outer", "fired");
        } else {
            set(&mut dom, node, "data-inner", "fired");
            run.event_stop_propagation();
        }
    }
    assert_eq!(attr(&dom, inner, "data-inner").as_deref(), Some("fired"));
    assert!(attr(&dom, outer, "data-outer").is_none());
    // Without stopping it the event goes on to the outer element, and from there to nobody.
    let mut calls = Vec::new();
    let mut again = Dispatch::begin(&mut dom, "click".to_string(), inner, true);
    while let Some((_, callback)) = again.next_call(&listeners) {
        calls.push(callback);
    }
    assert_eq!(calls, vec![2, 1]);
    let mut still = Dispatch::begin(&mut dom, "click".to_string(), inner, false);
    let mut calls = Vec::new();
    while let Some((_, callback)) = still.next_call(&listeners) {
        calls.push(callback);
    }
    assert_eq!(calls, vec![2]);
}

#[test]
fn prevent_default_flag_propagates_in_result() {
    let mut dom = page("<html><body><a id='hi' href='#x'>z</a></body></html>");
    let target = dom::find_by_id(&dom, "hi").unwrap();
    let mut listeners: Listeners<u32> = Listeners::new();
    listeners.element_add_event_listener(target, "click".to_string(), 1);
    let mut run = Dispatch::begin(&mut dom, "click".to_string(), target, true);
    while run.next_call(&listeners).is_some() {
        run.event_prevent_default();
    }
    let r = run.result(&dom);
    assert!(r.default_prevented);
    assert!(!r.mutated);
}

#[test]
fn any_change_by_a_handler_counts_as_one() {
    let mut dom = page("<html><body><div id='hi'>x</div></body></html>");
    let target = dom::find_by_id(&dom, "hi").unwrap();
    let mut listeners: Listeners<u32> = Listeners::new();
    listeners.element_add_event_listener(target, "click".to_string(), 1);
    let mut run = Dispatch::begin(&mut dom, "click".to_string(), target, true);
    while let Some((node, _)) = run.next_call(&listeners) {
        mutate::element_set_id(&mut dom, &mut None, node, "clicked");
    }
    assert!(dom::find_by_id(&dom, "clicked").is_some());
    let r = run.result(&dom);
    assert!(r.mutated && !r.default_prevented);
    // The next event starts with an unchanged document.
    let quiet: Dispatch<u32> = Dispatch::begin(&mut dom, "click".to_string(), target, true);
    assert!(!quiet.result(&dom).mutated);
    mutate::element_remove_child(&mut dom, &mut None, target, target);
    assert!(!quiet.result(&dom).mutated);
    style::style_set_property(&mut dom, &mut None, target, "color", "red");
    assert!(quiet.result(&dom).mutated);
}

#[test]
fn every_change_by_a_script_is_recorded() {
    let mut dom = body("<ul id=l><li id=a></li><li id=b></li></ul>");
    let list = dom::find_by_id(&dom, "l").unwrap();
    let a = dom::find_by_id(&dom, "a").unwrap();
    let b = dom::find_by_id(&dom, "b").unwrap();
    let mut slot = Some(ObserverState::default());
    let watcher = observers::mutation_observer_ctor(&mut slot);
    observers::mutation_observer_observe(&mut slot, watcher, list, true, true, true, true);
    let mut told = |slot: &mut Option<ObserverState>| -> Vec<(MutationKind, Option<String>)> {
        let mut all = Vec::new();
        for (_, records) in observers::drain_mutation_records(slot) {
            all.extend(records.into_iter().map(|r| (r.kind, r.attribute_name)));
        }
        all
    };
    let children = vec![(MutationKind::ChildList, None)];
    let attribute = |n: &str| vec![(MutationKind::Attributes, Some(n.to_string()))];
    assert!(mutate::element_insert_before(&mut dom, &mut slot, list, b, Some(a)));
    assert_eq!(told(&mut slot), children);
    assert!(!mutate::element_insert_before(&mut dom, &mut slot, list, a, Some(a)));
    assert_eq!(told(&mut slot), vec![]);
    let c = dom.create_element("li".to_string(), Vec::new());
    assert!(mutate::element_replace_child(&mut dom, &mut slot, list, c, a));
    assert_eq!(told(&mut slot), children);
    mutate::element_set_inner_html(&mut dom, &mut slot, c, &page("<b>x</b>"));
    assert_eq!(told(&mut slot), children);
    class_list::class_list_add(&mut dom, &mut slot, b, &vec!["x".to_string()]);
    assert_eq!(told(&mut slot), attribute("class"));
    assert!(!class_list::class_list_replace(&mut dom, &mut slot, b, "y", "z"));
    assert_eq!(told(&mut slot), vec![]);
    mutate::element_set_class_name(&mut dom, &mut slot, b, "y");
    assert_eq!(told(&mut slot), attribute("class"));
    style::style_set_property(&mut dom, &mut slot, b, "color", "red");
    assert_eq!(told(&mut slot), attribute("style"));
    style::style_remove_property(&mut dom, &mut slot, b, "color");
    assert_eq!(told(&mut slot), attribute("style"));
    style::style_set_css_text(&mut dom, &mut slot, b, "");
    assert_eq!(told(&mut slot), attribute("style"));
    dom::element_set_content_editable(&mut dom, &mut slot, b, "true");
    assert_eq!(told(&mut slot), attribute("contenteditable"));
    dialog::dialog_show(&mut dom, &mut slot, b);
    assert_eq!(told(&mut slot), attribute("open"));
}

#[test]
fn a_subtree_lists_each_node_once() {
    let dom = body("<div id=o><p><i></i></p><p></p></div>");
    let outer = dom::find_by_id(&dom, "o").unwrap();
    let all = dom.preorder(outer);
    assert_eq!(all.len(), 4);
    for (i, x) in all.iter().enumerate() {
        assert!(dom.contains(outer, *x));
        assert!(!all[..i].contains(x));
    }
}

#[test]
fn set_timeout_zero_ms_fires_on_pump() {
    let mut dom = page("<html><body><div id='hi'>x</div></body></html>");
    let div = dom::find_by_id(&dom, "hi").unwrap();
    let mut timers: TimerState<u32> = TimerState::new();
    timers.set_timeout(5, 0, 1_000);
    for t in timers.drain_due_timers(1_000) {
        assert_eq!(t.callback, 5);
        set(&mut dom, div, "data-fired", "yes");
    }
    assert_eq!(attr(&dom, div, "data-fired").as_deref(), Some("yes"));
}

#[test]
fn clear_timeout_cancels_pending_timer() {
    let mut timers: TimerState<u32> = TimerState::new();
    let id = timers.set_timeout(5, 0, 1_000);
    timers.clear_timer(id);
    assert!(timers.drain_due_timers(2_000).is_empty());
    assert!(timers.next_timer_at().is_none());
}

#[test]
fn set_interval_re_arms_until_cleared() {
    let mut dom = page("<html><body><div id='hi'>x</div></body></html>");
    let div = dom::find_by_id(&dom, "hi").unwrap();
    let mut timers: TimerState<u32> = TimerState::new();
    let id = timers.set_interval(9, 0, 0);
    let mut n = 0;
    for round in 1..=5u64 {
        let now = round * 2_000_000;
        for t in timers.drain_due_timers(now) {
            n += 1;
            if n >= 3 {
                timers.clear_timer(id);
            }
            set(&mut dom, div, "data-n", &n.to_string());
            timers.rearm_timer(t, now);
        }
    }
    assert_eq!(attr(&dom, div, "data-n").as_deref(), Some("3"));
    assert!(timers.next_timer_at().is_none());
}

#[test]
fn keyboard_event_init_props_are_visible_to_handler() {
    let mut init: EventInit<i32> = EventInit::bubbling();
    init.key = Some("a".to_string());
    init.shift = true;
    let built = events::build_event_object_with("keydown", &init);
    let mut seen_key = false;
    let mut seen_shift = false;
    for (name, value) in &built {
        if name == "key" {
            seen_key = matches!(value, EventValue::Text(s) if s == "a");
        }
        if name == "shiftKey" {
            seen_shift = matches!(value, EventValue::Flag(true));
        }
    }
    assert!(seen_key);
    assert!(seen_shift);
    let still: EventInit<i32> = EventInit::non_bubbling();
    assert!(init.bubbles && !still.bubbles && still.key.is_none());
}

#[test]
fn request_animation_frame_runs_callback_on_pump() {
    let mut dom = page("<html><body><div id='hi'>x</div></body></html>");
    let id = dom::find_by_id(&dom, "hi").unwrap();
    let mut frames: AnimationFrameQueue<u32> = AnimationFrameQueue::new();
    frames.request_animation_frame(3);
    assert!(frames.has_pending_animation_frames());
    for f in frames.take_frame() {
        assert_eq!(f.callback, 3);
        set(&mut dom, id, "data-raf", "fired");
    }
    assert_eq!(attr(&dom, id, "data-raf").as_deref(), Some("fired"));
    assert!(!frames.has_pending_animation_frames());
}

#[test]
fn cancel_animation_frame_removes_pending() {
    let mut frames: AnimationFrameQueue<u32> = AnimationFrameQueue::new();
    let id = frames.request_animation_frame(3);
    frames.cancel_animation_frame(id);
    assert!(frames.take_frame().is_empty());
}

#[test]
fn navigator_and_performance_globals_exposed() {
    let navigator = bindings::navigator_values("linux");
    assert!(navigator.iter().any(|(k, v)| k == "userAgent"
        && matches!(v, Constant::Text(s) if s.starts_with("daboss"))));
    assert!(navigator
        .iter()
        .any(|(k, v)| k == "platform" && matches!(v, Constant::Text(s) if s == "linux")));
    let screen = bindings::screen_values();
    assert!(screen.iter().any(|(k, v)| k == "width" && matches!(v, Constant::Whole(1024))));
    assert_eq!(screen.len(), 5);
    assert_eq!(bindings::audio_values().len(), 2);
}

#[test]
fn objects_have_their_members() {
    let members = Shape::Element.members();
    assert_eq!(members.len(), 36 - 1);
    let find = |n: &str| members.iter().find(|m| m.name == n).map(|m| m.access);
    assert_eq!(find("setAttribute"), Some(Access::Call(2)));
    assert_eq!(find("id"), Some(Access::ReadWrite));
    assert_eq!(find("tagName"), Some(Access::Read));
    assert_eq!(find("nothing"), None);
    assert_eq!(Shape::Location.members().len(), 13);
    assert_eq!(Shape::History.members().len(), 7);
    assert_eq!(Shape::Document.members().len(), 11);
    assert_eq!(
        bindings::make_element_handle("INPUT"),
        vec![Shape::Element, Shape::Control, Shape::Popover]
    );
    assert_eq!(
        bindings::make_element_handle("form"),
        vec![Shape::Element, Shape::Form, Shape::Popover]
    );
    assert_eq!(
        bindings::make_element_handle("dialog"),
        vec![Shape::Element, Shape::Dialog, Shape::Popover]
    );
    assert_eq!(bindings::make_element_handle("p"), vec![Shape::Element, Shape::Popover]);
    let first = bindings::context_values();
    assert_eq!(first.len(), 4);
    assert_eq!(first[0].0, "fillStyle");
    assert!(matches!(&first[0].1, Constant::Text(s) if s == "#000000"));
    assert!(matches!(first[3].1, Constant::Whole(1)));
    let dialog = Shape::Dialog.members();
    assert_eq!(dialog.len(), 5);
    assert_eq!((dialog[3].name.as_str(), dialog[3].access), ("open", Access::ReadWrite));
    let read = bindings::read_members("a b= c/12 d/x");
    let shown: Vec<(String, Access)> = read.into_iter().map(|m| (m.name, m.access)).collect();
    assert_eq!(
        shown,
        vec![
            ("a".to_string(), Access::Read),
            ("b".to_string(), Access::ReadWrite),
            ("c".to_string(), Access::Call(12)),
            ("d".to_string(), Access::Call(0)),
        ]
    );
}

#[test]
fn nodes_move_in_front_of_others_and_replace_them() {
    let mut dom = body("<ul><li id=a></li><li id=b></li></ul>");
    let list = dom::query_selector(&dom, "ul").unwrap();
    let a = dom::find_by_id(&dom, "a").unwrap();
    let b = dom::find_by_id(&dom, "b").unwrap();
    let mut slot = Some(ObserverState::default());
    assert!(mutate::element_insert_before(&mut dom, &mut slot, list, b, Some(a)));
    assert_eq!(dom.children(list), vec![b, a]);
    let c = dom.create_element("li".to_string(), Vec::new());
    assert!(mutate::element_replace_child(&mut dom, &mut slot, list, c, a));
    assert_eq!(dom.children(list), vec![b, c]);
    // A node is not put into itself.
    assert!(!mutate::element_append_child(&mut dom, &mut slot, c, list));
    assert_eq!(dom.children(list), vec![b, c]);
    let copy = mutate::element_clone_node(&mut dom, list, true);
    assert_eq!(dom.children(copy).len(), 2);
    let bare = mutate::element_clone_node(&mut dom, list, false);
    assert!(dom.children(bare).is_empty());
}

#[test]
fn selectors_tell_children_from_descendants() {
    let dom = body("<div><section><p class=x></p></section><p></p></div><p></p>");
    assert_eq!(dom::query_selector_all(&dom, "div p").len(), 2);
    assert_eq!(dom::query_selector_all(&dom, "div > p").len(), 1);
    assert_eq!(dom::query_selector_all(&dom, "div + p").len(), 1);
    assert_eq!(dom::query_selector_all(&dom, "section ~ p").len(), 1);
    assert_eq!(dom::query_selector_all(&dom, "p.x, section").len(), 2);
    assert_eq!(dom::query_selector_all(&dom, "*").len(), 7);
    assert_eq!(dom::document_get_elements_by_tag_name(&dom, "p").len(), 3);
    assert_eq!(dom::document_get_elements_by_class_name(&dom, "x").len(), 1);
}

#[test]
fn one_match_is_the_first_and_the_closest_is_around() {
    let dom = body("<div id=o><section id=i><p id=p></p></section></div><div></div>");
    let p = dom::find_by_id(&dom, "p").unwrap();
    let all = dom::query_selector_all(&dom, "div");
    assert_eq!(all.len(), 2);
    assert_eq!(dom::query_selector(&dom, "div"), Some(all[0]));
    assert_eq!(dom::query_selector(&dom, "ul"), None);
    let outer = dom::find_by_id(&dom, "o").unwrap();
    assert_eq!(dom::element_closest(&dom, p, "div"), Some(outer));
    assert_eq!(dom::element_closest(&dom, p, "p"), Some(p));
    assert_eq!(dom::element_closest(&dom, p, "ul"), None);
    assert!(dom.contains(outer, p));
}

#[test]
fn handlers_added_while_an_event_runs_wait_for_the_next_node() {
    let mut dom = body("<div id=o><p id=p></p></div>");
    let outer = dom::find_by_id(&dom, "o").unwrap();
    let inner = dom::find_by_id(&dom, "p").unwrap();
    let mut listeners: Listeners<u32> = Listeners::new();
    listeners.element_add_event_listener(inner, "click".to_string(), 1);
    let mut run = Dispatch::begin(&mut dom, "click".to_string(), inner, true);
    assert_eq!(run.next_call(&listeners), Some((inner, 1)));
    // The event is at the inner element already, whose handlers are taken; it is yet to come to
    // the outer one.
    listeners.element_add_event_listener(inner, "click".to_string(), 2);
    listeners.element_add_event_listener(outer, "click".to_string(), 3);
    assert_eq!(run.next_call(&listeners), Some((outer, 3)));
    assert_eq!(run.next_call(&listeners), None);
    assert_eq!(run.next_call(&listeners), None);
}

#[test]
fn markup_is_escaped() {
    assert_eq!(markup::escape_html_text("a<b>&c"), "a&lt;b&gt;&amp;c");
    let dom = body("<p title='a\"b'>x</p>");
    let p = dom::query_selector(&dom, "p").unwrap();
    assert_eq!(markup::serialize_node(&dom, p), "<p title=\"a&quot;b\">x</p>");
}

#[test]
fn editability_is_inherited() {
    let mut dom = body("<div contenteditable=true><p id=in></p></div><p id=out></p>");
    let inside = dom::find_by_id(&dom, "in").unwrap();
    let outside = dom::find_by_id(&dom, "out").unwrap();
    assert!(dom::is_effectively_editable(&dom, inside));
    assert!(!dom::is_effectively_editable(&dom, outside));
    assert_eq!(dom::element_get_content_editable(&dom, inside), "inherit");
    dom::element_set_content_editable(&mut dom, &mut None, inside, "FALSE");
    assert_eq!(dom::element_get_content_editable(&dom, inside), "false");
    assert!(!dom::is_effectively_editable(&dom, inside));
    assert_eq!(dom::normalise_editable(""), "true");
    assert_eq!(dom::normalise_editable("?"), "inherit");
}

#[test]
fn layouts_reach_the_observers_once() {
    let at = |ratio: f64| ratio.to_bits();
    let boxed = |n: NodeId, intersecting: bool, ratio: f64, width: f32| LaidOut {
        node: n,
        sight: Sight { intersecting, ratio: at(ratio) },
        extent: Extent { width: width.to_bits(), height: 2.0f32.to_bits() },
    };
    let (a, b) = (NodeId::from_raw(1), NodeId::from_raw(2));
    let mut slot = Some(ObserverState::default());
    assert_eq!(observers::read_thresholds(&vec![]), vec![0]);
    assert_eq!(observers::read_thresholds(&vec![at(2.0), at(-1.0)]), vec![0]);
    let given = vec![at(1.0), at(0.5), at(1.5), at(0.5), at(0.0)];
    assert_eq!(observers::read_thresholds(&given), vec![at(0.0), at(0.5), at(1.0)]);
    let half = observers::intersection_observer_ctor(&mut slot, &vec![at(0.5)]);
    let plain = observers::intersection_observer_ctor(&mut slot, &vec![]);
    let size = observers::resize_observer_ctor(&mut slot);
    assert!(observers::intersection_observe(&mut slot, half, a));
    assert!(observers::intersection_observe(&mut slot, plain, a));
    assert!(!observers::intersection_observe(&mut slot, 7, a));
    assert!(observers::resize_observe(&mut slot, size, a));
    assert!(observers::resize_observe(&mut slot, size, b));
    // In view as a whole and with a size: only the size is news.
    let whole = vec![boxed(a, true, 1.0, 10.0)];
    let told = observers::tick_layout_observers(&mut slot, &whole);
    assert_eq!(told.intersections, vec![vec![], vec![]]);
    assert_eq!(told.resizes, vec![vec![a]]);
    // A layout that stays as it is is no news.
    let told = observers::tick_layout_observers(&mut slot, &whole);
    assert_eq!(told.resizes, vec![vec![]]);
    // Less of it, but no threshold between.
    let told = observers::tick_layout_observers(&mut slot, &vec![boxed(a, true, 0.5, 10.0)]);
    assert_eq!(told.intersections, vec![vec![], vec![]]);
    // Below the threshold of one observer.
    let told = observers::tick_layout_observers(&mut slot, &vec![boxed(a, true, 0.25, 10.0)]);
    assert_eq!(told.intersections, vec![vec![a], vec![]]);
    // Out of view.
    let gone = vec![boxed(a, false, 0.0, 10.0)];
    let told = observers::tick_layout_observers(&mut slot, &gone);
    assert_eq!(told.intersections, vec![vec![a], vec![a]]);
    observers::intersection_unobserve(&mut slot, half, a);
    observers::intersection_disconnect(&mut slot, plain);
    observers::resize_unobserve(&mut slot, size, b);
    let told = observers::tick_layout_observers(
        &mut slot,
        &vec![boxed(a, true, 1.0, 5.0), boxed(b, true, 1.0, 5.0)],
    );
    assert_eq!(told.intersections, vec![vec![], vec![]]);
    assert_eq!(told.resizes, vec![vec![a]]);
}

#[test]
fn form_data_takes_the_controls_below_a_form() {
    let dom = body(
        "<form id=f><p><input name=a value=1><input value=x></p><select name=b value=2></select>\
         <div name=c value=3></div></form><input name=d value=4>",
    );
    let form = dom::find_by_id(&dom, "f").unwrap();
    let mut data = FormDataState::default();
    data.seed_from_element(&dom, form);
    let names: Vec<String> = data.formdata_entries().into_iter().map(|e| e.0).collect();
    assert_eq!(names, vec!["a", "b"]);
    assert!(matches!(data.formdata_get("b"), Some(FormDataValue::String(s)) if s == "2"));
}

#[test]
fn mutations_reach_the_observers_that_watch_them() {
    let mut dom = body("<div id=a><p id=b></p></div>");
    let a = dom::find_by_id(&dom, "a").unwrap();
    let b = dom::find_by_id(&dom, "b").unwrap();
    let mut slot = Some(ObserverState::default());
    let first = observers::mutation_observer_ctor(&mut slot);
    let second = observers::mutation_observer_ctor(&mut slot);
    observers::mutation_observer_observe(&mut slot, first, a, true, false, false, false);
    observers::mutation_observer_observe(&mut slot, second, b, false, true, false, false);
    let mut media = MediaRegistry::new();
    mutate::element_set_attribute(&mut dom, &mut slot, &mut media, a, "title", "t");
    let p = dom.create_element("p".to_string(), Vec::new());
    mutate::element_append_child(&mut dom, &mut slot, b, p);
    let got = observers::drain_mutation_records(&mut slot);
    assert_eq!(got.len(), 2);
    assert_eq!(got[0].0, first);
    assert_eq!(got[0].1.len(), 1);
    assert_eq!(got[0].1[0].kind, MutationKind::Attributes);
    assert_eq!(got[0].1[0].attribute_name.as_deref(), Some("title"));
    assert_eq!(got[1].0, second);
    assert_eq!(got[1].1[0].kind, MutationKind::ChildList);
    assert_eq!(observers::mutation_type(got[1].1[0].kind), "childList");
    assert!(observers::drain_mutation_records(&mut slot).is_empty());
}

#[test]
fn canvases_give_the_contexts_that_they_have() {
    let dom = body("<canvas id=c width=12></canvas><div id=d></div>");
    let c = dom::find_by_id(&dom, "c").unwrap();
    let d = dom::find_by_id(&dom, "d").unwrap();
    assert_eq!(
        canvas::element_get_context(&dom, c, "2d"),
        CanvasContext::Flat { width: 12, height: 150 }
    );
    assert_eq!(canvas::element_get_context(&dom, c, "webgl"), CanvasContext::WebGl);
    assert_eq!(canvas::element_get_context(&dom, c, "webgpu"), CanvasContext::WebGpu);
    assert_eq!(canvas::element_get_context(&dom, c, "3d"), CanvasContext::Nothing);
    assert_eq!(canvas::element_get_context(&dom, d, "2d"), CanvasContext::Nothing);
}

#[test]
fn styles_are_read_and_written_as_declarations() {
    let mut dom = body("<p style='COLOR: red; bad; width:1px'></p>");
    let p = dom::query_selector(&dom, "p").unwrap();
    assert_eq!(style::style_get_property_value(&dom, p, "color"), "red");
    assert_eq!(style::style_remove_property(&mut dom, &mut None, p, "width"), "1px");
    assert_eq!(style::style_get_property_value(&dom, p, "width"), "");
    style::style_set_css_text(&mut dom, &mut None, p, "a: b");
    assert_eq!(style::style_get_css_text(&dom, p), "a: b");
    assert_eq!(style::kebab_to_camel("font-size"), "fontSize");
    assert_eq!(style::data_attr_to_camel("user-name"), "userName");
    let shown = animations::current_inline_style(&dom, p);
    assert_eq!(shown, vec![("a".to_string(), "b".to_string())]);
    animations::apply_resolved_style(
        &mut dom,
        p,
        &vec![("a".to_string(), "c".to_string()), ("d".to_string(), "e".to_string())],
    );
    assert_eq!(style::style_get_property_value(&dom, p, "a"), "c");
    assert_eq!(style::style_get_property_value(&dom, p, "d"), "e");
}

#[test]
fn dialogs_open_and_close() {
    let mut dom = body("<dialog id=d></dialog>");
    let d = dom::find_by_id(&dom, "d").unwrap();
    let mut returned = ReturnValues::new();
    assert!(!dialog::dialog_get_open(&dom, d));
    dialog::dialog_show_modal(&mut dom, &mut None, d);
    assert!(dialog::dialog_get_open(&dom, d));
    let fired = dialog::dialog_close(&mut dom, &mut None, &mut returned, d, Some("ok".to_string()));
    assert_eq!(fired, "close");
    assert!(!dialog::dialog_get_open(&dom, d));
    assert_eq!(returned.dialog_get_return_value(d), "ok");
    dialog::dialog_set_open(&mut dom, &mut None, d, true);
    assert!(dialog::dialog_get_open(&dom, d));
}

#[test]
fn buttons_toggle_their_popovers() {
    let dom = body("<button id=b popovertarget=p></button><div id=p popover></div><i id=i></i>");
    let b = dom::find_by_id(&dom, "b").unwrap();
    let i = dom::find_by_id(&dom, "i").unwrap();
    let p = dialog::find_by_id(&dom, "p").unwrap();
    let mut popovers = Popovers::new();
    assert_eq!(
        dialog::try_invoke_popovertarget(&dom, &popovers, b),
        PopoverAction::Change { target: p, open: true }
    );
    assert!(popovers.element_show_popover(p));
    assert!(!popovers.element_hide_popover(p));
    popovers.settle(p, true);
    assert!(popovers.is_open(p));
    assert!(!popovers.element_show_popover(p));
    assert!(popovers.element_hide_popover(p));
    assert_eq!(
        dialog::try_invoke_popovertarget(&dom, &popovers, b),
        PopoverAction::Change { target: p, open: false }
    );
    assert_eq!(dialog::try_invoke_popovertarget(&dom, &popovers, i), PopoverAction::NotInvoked);
    let (before, after) = dialog::toggle_events(true);
    assert_eq!(before.name, "beforetoggle");
    assert_eq!(after.new_state, "open");
}

fn number(text: &str) -> NumberVerdict {
    NumberVerdict {
        is_number: text.trim().parse::<f64>().is_ok(),
        below: false,
        above: false,
        off_step: false,
    }
}

fn flags(dom: &Dom, id: NodeId, value: &str) -> ValidityFlags {
    forms::validate_node(dom, id, value, &CustomValidity::new(), number(value)).0
}

#[test]
fn controls_tell_what_is_wrong_with_them() {
    let dom = body("<input id=a required><input id=b type=email><input id=c maxlength=2 minlength=2><input id=d pattern='(a|b)+'><input id=e type=url>");
    let id = |n: &str| dom::find_by_id(&dom, n).unwrap();
    assert!(flags(&dom, id("a"), "").value_missing);
    assert!(flags(&dom, id("a"), "x").valid());
    assert!(flags(&dom, id("b"), "nobody").type_mismatch);
    assert!(flags(&dom, id("b"), "a@b.c").valid());
    assert!(flags(&dom, id("c"), "abc").too_long);
    assert!(flags(&dom, id("c"), "a").too_short);
    assert!(flags(&dom, id("d"), "abc").pattern_mismatch);
    assert!(flags(&dom, id("d"), "abba").valid());
    assert!(flags(&dom, id("e"), "nowhere").type_mismatch);
    assert!(flags(&dom, id("e"), "https://a.b").valid());
    let mut customs = CustomValidity::new();
    customs.element_set_custom_validity(id("a"), "no!".to_string());
    let (f, message) = forms::validate_node(&dom, id("a"), "x", &customs, number("x"));
    assert!(f.custom_error);
    assert_eq!(message, "no!");
    let checked = forms::element_check_validity(&dom, id("a"), &customs, number(""));
    assert!(!checked.valid);
    assert_eq!(checked.event.as_deref(), Some("invalid"));
    assert!(!forms::element_report_validity(&dom, id("a"), &customs, number("")).valid);
}

#[test]
fn numbers_out_of_range_are_refused() {
    let dom = body("<input id=n type=number min=1 max=5>");
    let n = dom::find_by_id(&dom, "n").unwrap();
    let customs = CustomValidity::new();
    let low = NumberVerdict { is_number: true, below: true, above: false, off_step: false };
    let high = NumberVerdict { is_number: true, below: false, above: true, off_step: true };
    let none = NumberVerdict { is_number: false, below: false, above: false, off_step: false };
    assert!(forms::validate_node(&dom, n, "0", &customs, low).0.range_underflow);
    let f = forms::validate_node(&dom, n, "9", &customs, high).0;
    assert!(f.range_overflow && f.step_mismatch);
    assert!(forms::validate_node(&dom, n, "x", &customs, none).0.bad_input);
}

#[test]
fn forms_are_sent_with_their_values() {
    let dom = body("<form id=f action='/go'><input name=a value='x y'><input name=b value='&'><input value=z></form>");
    let f = dom::find_by_id(&dom, "f").unwrap();
    let mut requests: Vec<NavRequest> = Vec::new();
    forms::form_request_submit(&dom, f, false, &mut requests);
    assert_eq!(requests.len(), 1);
    forms::form_request_submit(&dom, f, true, &mut requests);
    assert_eq!(requests.len(), 1);
    let NavRequest::Assign(url) = &requests[0] else {
        panic!("not an address");
    };
    assert!(url.starts_with("/go?"));
    assert!(url.contains("a=x"));
    assert!(url.contains("b=%26"));
    let encoded: String = forms::url_encode("a b&ü").into_iter().collect();
    assert!(!encoded.contains(' ') && !encoded.contains('&') && encoded.is_ascii());
    let numbers: Vec<NumberVerdict> =
        forms::walk_form_controls(&dom, f).iter().map(|_| number("1")).collect();
    assert_eq!(numbers.len(), 3);
    assert_eq!(forms::submit_event(), "submit");
    assert!(forms::form_check_validity(&dom, f, &CustomValidity::new(), &numbers));
    assert!(forms::form_report_validity(&dom, f, &CustomValidity::new(), &numbers));
}

#[test]
fn elements_show_the_streams_that_they_are_given() {
    let dom = body("<video id=v></video>");
    let v = dom::find_by_id(&dom, "v").unwrap();
    let mut shown = CaptureBindings::new();
    assert_eq!(shown.element_get_src_object(v), None);
    shown.element_set_src_object(v, SourceObject::Capture(4));
    shown.element_set_src_object(v, SourceObject::Other);
    assert_eq!(shown.element_get_src_object(v), Some(4));
    shown.element_set_src_object(v, SourceObject::Nothing);
    assert_eq!(shown.element_get_src_object(v), None);
}

#[test]
fn pumping_tells_whether_the_page_changed() {
    assert!(!engine::pump_result(0, 3, 3).mutated);
    assert!(engine::pump_result(1, 3, 4).mutated);
    let r = daboss::engine::DispatchResult::default();
    assert!(!r.default_prevented && !r.mutated);
}
