//! The history of a page, and the requests of its scripts to go elsewhere.
use crate::address;
use crate::address::{PartsView, UrlParts};
use crate::engine::{NavRequest, NavView};
use crate::text;
use vstd::prelude::*;
use vstd::string::*;

verus! {

/// An address that a page went through.
pub struct HistoryEntry {
    pub url: String,
}

/// The texts of the addresses of entries.
pub open spec fn urls(v: Seq<HistoryEntry>) -> Seq<Seq<char>> {
    v.map_values(|e: HistoryEntry| e.url@)
}

/// The addresses that a page went through, and which of them is the current one.
pub struct JsHistory {
    pub entries: Vec<HistoryEntry>,
    pub cursor: usize,
}

/// A history over plain values.
pub ghost struct HistoryView {
    pub entries: Seq<Seq<char>>,
    pub cursor: int,
}

impl View for JsHistory {
    type V = HistoryView;

    open spec fn view(&self) -> HistoryView {
        HistoryView { entries: urls(self.entries@), cursor: self.cursor as int }
    }
}

impl HistoryView {
    /// The current entry is one of the entries.
    pub open spec fn wf(self) -> bool {
        0 <= self.cursor < self.entries.len()
    }

    /// The history once an address was gone to: what was ahead is dropped.
    pub open spec fn pushed(self, url: Seq<char>) -> HistoryView {
        HistoryView {
            entries: self.entries.take(self.cursor + 1).push(url),
            cursor: self.cursor + 1,
        }
    }

    /// The history with another address as its current entry.
    pub open spec fn replaced(self, url: Seq<char>) -> HistoryView {
        HistoryView { entries: self.entries.update(self.cursor, url), cursor: self.cursor }
    }

    /// The current address.
    pub open spec fn current(self) -> Seq<char> {
        self.entries[self.cursor]
    }
}

impl JsHistory {
    /// The history of a page that just opened.
    pub fn new(url: String) -> (r: Self)
        ensures
            r@ == (HistoryView { entries: seq![url@], cursor: 0 }),
            r@.wf(),
    {
        let mut entries: Vec<HistoryEntry> = Vec::new();
        let ghost u = url@;
        entries.push(HistoryEntry { url });
        proof {
            assert(urls(entries@) =~= seq![u]);
        }
        JsHistory { entries, cursor: 0 }
    }

    /// Goes to an address.
    pub fn push(&mut self, url: String)
        requires
            old(self)@.wf(),
        ensures
            final(self)@ == old(self)@.pushed(url@),
            final(self)@.wf(),
    {
        let ghost before = self@;
        let ghost u = url@;
        let n: usize = self.entries.len();
        proof {
            assert(self.cursor < n);
        }
        let keep: usize = self.cursor + 1;
        self.entries.truncate(keep);
        self.entries.push(HistoryEntry { url });
        self.cursor = keep;
        proof {
            assert(self@.entries =~= before.entries.take(before.cursor + 1).push(u));
        }
    }

    /// Puts an address in place of the current one.
    pub fn replace(&mut self, url: String)
        requires
            old(self)@.wf(),
        ensures
            final(self)@ == old(self)@.replaced(url@),
            final(self)@.wf(),
    {
        let ghost before = self@;
        let ghost u = url@;
        let at: usize = self.cursor;
        self.entries[at] = HistoryEntry { url };
        proof {
            assert(self@.entries =~= before.entries.update(before.cursor, u));
        }
    }

    /// How many entries there are, in four bytes.
    pub fn history_get_length(&self) -> (r: u32)
        ensures
            r == self@.entries.len() % 0x1_0000_0000,
    {
        let n: u64 = self.entries.len() as u64;
        (n % 0x1_0000_0000) as u32
    }
}

/// Going to an address makes it the current one and the last, keeps what is behind it, and
/// undoes nothing of it: replacing it afterwards leaves only the replacement in its place.
pub proof fn pushed_is_current(h: HistoryView, url: Seq<char>, other: Seq<char>)
    requires
        h.wf(),
    ensures
        h.pushed(url).wf(),
        h.pushed(url).current() == url,
        h.pushed(url).cursor == h.pushed(url).entries.len() - 1,
        h.pushed(url).entries.take(h.cursor + 1) == h.entries.take(h.cursor + 1),
        h.replaced(url).wf(),
        h.replaced(url).current() == url,
        h.replaced(url).entries.len() == h.entries.len(),
        h.pushed(url).replaced(other) == h.pushed(other),
{
    assert(h.pushed(url).entries.take(h.cursor + 1) =~= h.entries.take(h.cursor + 1));
    assert(h.pushed(url).replaced(other).entries =~= h.pushed(other).entries);
}

/// A page: where it is, and how it came there.
pub struct Page {
    pub location: Option<UrlParts>,
    pub history: JsHistory,
}

/// A page over plain values.
pub ghost struct PageView {
    pub location: Option<PartsView>,
    pub history: HistoryView,
}

impl View for Page {
    type V = PageView;

    open spec fn view(&self) -> PageView {
        PageView { location: address::opt_parts(self.location), history: self.history@ }
    }
}

/// The page that a script's change of its address leads to: seen from where it is, and only
/// where there is an address and it can be resolved.
pub open spec fn state_changed(
    p: PageView,
    url: Option<Seq<char>>,
    replace: bool,
) -> PageView {
    match (url, p.location) {
        (Some(u), Some(base)) => moved(p, address::joined_url(base.href, u), replace),
        _ => p,
    }
}

/// The page once it is at an address, where it is at one.
pub open spec fn moved(p: PageView, to: Option<PartsView>, replace: bool) -> PageView {
    match to {
        Some(to) => PageView {
            location: Some(to),
            history: if replace {
                p.history.replaced(to.href)
            } else {
                p.history.pushed(to.href)
            },
        },
        None => p,
    }
}

/// Moves a page to an address, where there is one.
pub fn move_page(page: &mut Page, to: Option<UrlParts>, replace: bool)
    requires
        old(page)@.history.wf(),
    ensures
        final(page)@ == moved(old(page)@, address::opt_parts(to), replace),
        final(page)@.history.wf(),
{
    match to {
        Some(u) => {
            let href = text::copy(&u.href);
            if replace {
                page.history.replace(href);
            } else {
                page.history.push(href);
            }
            page.location = Some(u);
        },
        None => {},
    }
}

/// Changes the address of a page without loading it.
pub fn history_push_or_replace(page: &mut Page, url: Option<&str>, replace: bool)
    requires
        old(page)@.history.wf(),
    ensures
        final(page)@ == state_changed(
            old(page)@,
            match url {
                Some(u) => Some(u@),
                None => None,
            },
            replace,
        ),
        final(page)@.history.wf(),
{
    let to = match (url, &page.location) {
        (Some(u), Some(base)) => address::resolve(Some(base.href.as_str()), u),
        _ => None,
    };
    move_page(page, to, replace);
}

/// Tells a page that it was taken to an address.
pub fn set_current_url(page: &mut Page, to: UrlParts)
    requires
        old(page)@.history.wf(),
    ensures
        final(page)@ == moved(old(page)@, Some(to@), false),
        final(page)@.history.wf(),
{
    move_page(page, Some(to), false);
}

/// A page that opens at an address, or at the blank page.
pub fn open_page(base: Option<UrlParts>) -> (r: Page)
    ensures
        r@.history.wf(),
        match address::opt_parts(base) {
            Some(u) => r@ == (PageView {
                location: Some(u),
                history: HistoryView { entries: seq![u.href], cursor: 0 },
            }),
            None => r@.location == address::parsed_url("about:blank"@) && r@.history
                == (HistoryView {
                entries: seq![
                    match address::parsed_url("about:blank"@) {
                        Some(u) => u.href,
                        None => "about:blank"@,
                    },
                ],
                cursor: 0,
            }),
        },
{
    let location = match base {
        Some(u) => Some(u),
        None => address::resolve(None, "about:blank"),
    };
    let href = match &location {
        Some(u) => text::copy(&u.href),
        None => text::copy("about:blank"),
    };
    Page { location, history: JsHistory::new(href) }
}

/// What a script may ask of a location or a history.
pub enum NavCall {
    Assign(String),
    Replace(String),
    Reload,
    Back,
    Forward,
    Go(Option<i32>),
}

/// The request that a call of a script makes.
pub open spec fn request_of(call: NavCall) -> NavView {
    match call {
        NavCall::Assign(u) => NavView::Assign(u@),
        NavCall::Replace(u) => NavView::Replace(u@),
        NavCall::Reload => NavView::Reload,
        NavCall::Back => NavView::Go(-1),
        NavCall::Forward => NavView::Go(1),
        NavCall::Go(Some(n)) => NavView::Go(n as int),
        NavCall::Go(None) => NavView::Go(0),
    }
}

/// The plain values of requests.
pub open spec fn requests_view(v: Seq<NavRequest>) -> Seq<NavView> {
    v.map_values(|r: NavRequest| r@)
}

/// Adds the request of a script to those that wait.
pub fn enqueue_nav(requests: &mut Vec<NavRequest>, call: NavCall)
    ensures
        requests_view(final(requests)@) == requests_view(old(requests)@).push(request_of(call)),
{
    let ghost before = requests@;
    let req = match call {
        NavCall::Assign(u) => NavRequest::Assign(u),
        NavCall::Replace(u) => NavRequest::Replace(u),
        NavCall::Reload => NavRequest::Reload,
        NavCall::Back => NavRequest::Go(-1),
        NavCall::Forward => NavRequest::Go(1),
        NavCall::Go(Some(n)) => NavRequest::Go(n),
        NavCall::Go(None) => NavRequest::Go(0),
    };
    requests.push(req);
    proof {
        assert(requests_view(requests@) =~= requests_view(before).push(request_of(call)));
    }
}

/// Takes all requests that wait, in the order in which they were made.
pub fn drain_nav_requests(requests: &mut Vec<NavRequest>) -> (r: Vec<NavRequest>)
    ensures
        r@ == old(requests)@,
        final(requests)@.len() == 0,
{
    let mut out: Vec<NavRequest> = Vec::new();
    core::mem::swap(&mut out, requests);
    out
}

/// Going to an address drops what was ahead and nothing else; replacing one keeps all others.
pub proof fn histories_keep_the_rest(h: HistoryView, url: Seq<char>, i: int)
    requires
        h.wf(),
        0 <= i < h.entries.len(),
    ensures
        h.pushed(url).entries.len() == h.cursor + 2,
        h.pushed(url).cursor == h.cursor + 1,
        i <= h.cursor ==> h.pushed(url).entries[i] == h.entries[i],
        h.replaced(url).cursor == h.cursor,
        i != h.cursor ==> h.replaced(url).entries[i] == h.entries[i],
{
}

/// Where a page is and the current entry of its history agree once it moved; a page that has no
/// address, is given none, or one that cannot be resolved stays as it is.
pub proof fn pages_are_where_they_moved(
    p: PageView,
    base: PartsView,
    url: Seq<char>,
    to: PartsView,
    replace: bool,
)
    requires
        p.history.wf(),
        p.location == Some(base),
    ensures
        address::joined_url(base.href, url) == Some(to) ==> {
            let q = state_changed(p, Some(url), replace);
            &&& q.location == Some(to)
            &&& q.history.wf()
            &&& q.history.current() == to.href
            &&& replace ==> q.history.entries.len() == p.history.entries.len() && q.history.cursor
                == p.history.cursor
            &&& !replace ==> q.history.cursor == p.history.cursor + 1
        },
        address::joined_url(base.href, url) is None ==> state_changed(p, Some(url), replace) == p,
        state_changed(p, None, replace) == p,
        state_changed(
            PageView { location: None, history: p.history },
            Some(url),
            replace,
        ) == (PageView { location: None, history: p.history }),
{
}

/// A step back and a step forward undo each other, a step of nothing stays, and every other call asks
/// for the address that it was given.
pub proof fn requests_ask_for_what_was_called(url: String, n: i32)
    ensures
        n == -1 ==> request_of(NavCall::Back) == request_of(NavCall::Go(Some(n))),
        n == 1 ==> request_of(NavCall::Forward) == request_of(NavCall::Go(Some(n))),
        n == 0 ==> request_of(NavCall::Go(None)) == request_of(NavCall::Go(Some(n))),
        request_of(NavCall::Go(Some(n))) == NavView::Go(n as int),
        request_of(NavCall::Assign(url)) == NavView::Assign(url@),
        request_of(NavCall::Replace(url)) == NavView::Replace(url@),
        request_of(NavCall::Reload) == NavView::Reload,
{
}

} // verus!
