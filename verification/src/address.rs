//! Addresses, taken apart and resolved by the `url` crate.
use crate::number;
use crate::text;
use vstd::prelude::*;
use vstd::string::*;

verus! {

/// The parts of an address.
pub struct UrlParts {
    pub href: String,
    pub scheme: String,
    pub host: Option<String>,
    pub port: Option<u16>,
    pub path: String,
    pub query: Option<String>,
    pub fragment: Option<String>,
}

/// The parts of an address, over plain characters.
pub struct PartsView {
    pub href: Seq<char>,
    pub scheme: Seq<char>,
    pub host: Option<Seq<char>>,
    pub port: Option<u16>,
    pub path: Seq<char>,
    pub query: Option<Seq<char>>,
    pub fragment: Option<Seq<char>>,
}

impl View for UrlParts {
    type V = PartsView;

    open spec fn view(&self) -> PartsView {
        PartsView {
            href: self.href@,
            scheme: self.scheme@,
            host: text::opt_text(self.host),
            port: self.port,
            path: self.path@,
            query: text::opt_text(self.query),
            fragment: text::opt_text(self.fragment),
        }
    }
}

/// The view of an address that may be missing.
pub open spec fn opt_parts(u: Option<UrlParts>) -> Option<PartsView> {
    match u {
        Some(p) => Some(p@),
        None => None,
    }
}

/// What `url::Url::parse` makes of a text.
pub uninterp spec fn parsed_url(s: Seq<char>) -> Option<PartsView>;

/// What `url::Url::join` makes of a text, on the address that another text writes.
pub uninterp spec fn joined_url(base: Seq<char>, s: Seq<char>) -> Option<PartsView>;

/// `Url::parse` of the `url` crate, its result taken apart by the getters of `Url`: none where
/// it refuses the text. The parts depend on the text alone.
#[verifier::external_body]
fn parse_url(s: &str) -> (r: Option<UrlParts>)
    ensures
        opt_parts(r) == parsed_url(s@),
{
    let u = url::Url::parse(s).ok()?;
    Some(UrlParts {
        href: u.as_str().to_owned(),
        scheme: u.scheme().to_owned(),
        host: u.host_str().map(str::to_owned),
        port: u.port(),
        path: u.path().to_owned(),
        query: u.query().map(str::to_owned),
        fragment: u.fragment().map(str::to_owned),
    })
}

/// `Url::join` of the `url` crate on the address that the first text writes, its result taken
/// apart by the getters of `Url`: none where the base is no address or the join is refused. The
/// parts depend on the two texts alone.
#[verifier::external_body]
fn join_url(base: &str, s: &str) -> (r: Option<UrlParts>)
    ensures
        opt_parts(r) == joined_url(base@, s@),
{
    let u = url::Url::parse(base).ok()?.join(s).ok()?;
    Some(UrlParts {
        href: u.as_str().to_owned(),
        scheme: u.scheme().to_owned(),
        host: u.host_str().map(str::to_owned),
        port: u.port(),
        path: u.path().to_owned(),
        query: u.query().map(str::to_owned),
        fragment: u.fragment().map(str::to_owned),
    })
}

/// The address that a text writes, seen from a base where there is one.
pub open spec fn resolved(base: Option<Seq<char>>, s: Seq<char>) -> Option<PartsView> {
    match base {
        Some(b) => joined_url(b, s),
        None => parsed_url(s),
    }
}

/// The address that a text writes, seen from a base where there is one.
pub fn resolve(base: Option<&str>, s: &str) -> (r: Option<UrlParts>)
    ensures
        opt_parts(r) == resolved(
            match base {
                Some(b) => Some(b@),
                None => None,
            },
            s@,
        ),
{
    match base {
        Some(b) => join_url(b, s),
        None => parse_url(s),
    }
}

/// A copy of an optional text.
pub fn copy_option(s: &Option<String>) -> (r: Option<String>)
    ensures
        text::opt_text(r) == text::opt_text(*s),
{
    match s {
        Some(t) => Some(text::copy(t)),
        None => None,
    }
}

/// Whether addresses of a scheme have an origin of their own.
pub open spec fn has_origin(scheme: Seq<char>) -> bool {
    scheme == "ftp"@ || scheme == "http"@ || scheme == "https"@ || scheme == "ws"@ || scheme
        == "wss"@
}

/// The scheme, the host and the port that is named, for an address that has an origin of its own;
/// the word for none for another.
pub open spec fn own_origin(u: PartsView) -> Seq<char> {
    if has_origin(u.scheme) {
        let site = u.scheme + "://"@ + (match u.host {
            Some(h) => h,
            None => Seq::empty(),
        });
        match u.port {
            Some(p) => site + ":"@ + number::decimal(p as nat),
            None => site,
        }
    } else {
        "null"@
    }
}

/// The origin of an address. That of a blob's address is the one of the address in its path, and
/// so on for so many addresses inside one another; each of them takes up a colon of the path, so
/// there are no more of them than the path has characters.
pub open spec fn origin_of(u: PartsView, layers: nat) -> Seq<char>
    decreases layers,
{
    if u.scheme != "blob"@ {
        own_origin(u)
    } else if layers == 0 {
        "null"@
    } else {
        match parsed_url(u.path) {
            Some(p) => origin_of(p, (layers - 1) as nat),
            None => "null"@,
        }
    }
}

fn write_own_origin(u: &UrlParts) -> (r: String)
    ensures
        r@ == own_origin(u@),
{
    let s = &u.scheme;
    if !(text::same(s, "ftp") || text::same(s, "http") || text::same(s, "https") || text::same(
        s,
        "ws",
    ) || text::same(s, "wss")) {
        return text::copy("null");
    }
    let mut out = text::to_chars(s);
    text::push_text(&mut out, "://");
    match &u.host {
        Some(h) => {
            text::push_text(&mut out, h);
        },
        None => {},
    }
    proof {
        assert(out@ =~= u@.scheme + "://"@ + (match u@.host {
            Some(h) => h,
            None => Seq::empty(),
        }));
    }
    match u.port {
        Some(p) => {
            text::push_text(&mut out, ":");
            let d = number::write_decimal(p as u128);
            text::push_chars(&mut out, &d);
        },
        None => {},
    }
    text::to_text(&out)
}

/// The origin of an address.
pub fn location_origin(u: &UrlParts) -> (r: String)
    ensures
        r@ == origin_of(u@, u@.path.len()),
{
    if !text::same(&u.scheme, "blob") {
        return write_own_origin(u);
    }
    let ghost mut outer = u@;
    let mut path = text::copy(&u.path);
    let mut layers: usize = text::to_chars(&u.path).len();
    while layers > 0
        invariant
            outer.scheme == "blob"@,
            outer.path == path@,
            origin_of(u@, u@.path.len()) == origin_of(outer, layers as nat),
        decreases layers,
    {
        let inner = match parse_url(&path) {
            Some(p) => p,
            None => {
                return text::copy("null");
            },
        };
        layers = layers - 1;
        if !text::same(&inner.scheme, "blob") {
            assert(origin_of(inner@, layers as nat) == own_origin(inner@));
            return write_own_origin(&inner);
        }
        proof {
            outer = inner@;
        }
        path = inner.path;
    }
    text::copy("null")
}

/// What a location shows: its `href`, `origin` and so on. Nothing is shown where there is no
/// location.
#[derive(Clone, Copy, PartialEq, Eq, Structural, Debug)]
pub enum LocationPart {
    Href,
    Origin,
    Protocol,
    Host,
    Hostname,
    Port,
    Pathname,
    Search,
    Hash,
}

/// The sign and the text, or nothing where there is no text.
pub open spec fn signed(sign: Seq<char>, s: Option<Seq<char>>) -> Seq<char> {
    match s {
        Some(t) => sign + t,
        None => Seq::empty(),
    }
}

/// What a part of an address looks like in a location.
pub open spec fn shown(u: PartsView, part: LocationPart) -> Seq<char> {
    match part {
        LocationPart::Href => u.href,
        LocationPart::Origin => origin_of(u, u.path.len()),
        LocationPart::Protocol => u.scheme + ":"@,
        LocationPart::Host => match (u.host, u.port) {
            (Some(h), Some(p)) => h + ":"@ + number::decimal(p as nat),
            (Some(h), None) => h,
            _ => Seq::empty(),
        },
        LocationPart::Hostname => match u.host {
            Some(h) => h,
            None => Seq::empty(),
        },
        LocationPart::Port => match u.port {
            Some(p) => number::decimal(p as nat),
            None => Seq::empty(),
        },
        LocationPart::Pathname => u.path,
        LocationPart::Search => signed("?"@, u.query),
        LocationPart::Hash => signed("#"@, u.fragment),
    }
}

fn with_sign(sign: &str, s: &Option<String>) -> (r: String)
    ensures
        r@ == signed(sign@, text::opt_text(*s)),
{
    match s {
        Some(t) => {
            let mut out = text::to_chars(sign);
            text::push_text(&mut out, t);
            text::to_text(&out)
        },
        None => String::new(),
    }
}

/// What a location shows of its address.
pub fn location_get(current: &Option<UrlParts>, part: LocationPart) -> (r: String)
    ensures
        r@ == match opt_parts(*current) {
            Some(u) => shown(u, part),
            None => Seq::empty(),
        },
{
    match current {
        None => String::new(),
        Some(u) => match part {
            LocationPart::Href => text::copy(&u.href),
            LocationPart::Origin => location_origin(u),
            LocationPart::Protocol => {
                let mut out = text::to_chars(&u.scheme);
                text::push_text(&mut out, ":");
                text::to_text(&out)
            },
            LocationPart::Host => match &u.host {
                Some(h) => match u.port {
                    Some(p) => {
                        let mut out = text::to_chars(h);
                        text::push_text(&mut out, ":");
                        let d = number::write_decimal(p as u128);
                        text::push_chars(&mut out, &d);
                        text::to_text(&out)
                    },
                    None => text::copy(h),
                },
                None => String::new(),
            },
            LocationPart::Hostname => match &u.host {
                Some(h) => text::copy(h),
                None => String::new(),
            },
            LocationPart::Port => match u.port {
                Some(p) => {
                    let d = number::write_decimal(p as u128);
                    text::to_text(&d)
                },
                None => String::new(),
            },
            LocationPart::Pathname => text::copy(&u.path),
            LocationPart::Search => with_sign("?", &u.query),
            LocationPart::Hash => with_sign("#", &u.fragment),
        },
    }
}

/// The host of an address with a port that it names is the host name, a colon and the port; one
/// without is the host name.
pub proof fn host_is_name_and_port(u: PartsView)
    requires
        u.host is Some,
    ensures
        shown(u, LocationPart::Host) == (if u.port is Some {
            shown(u, LocationPart::Hostname) + ":"@ + shown(u, LocationPart::Port)
        } else {
            shown(u, LocationPart::Hostname)
        }),
{
}

/// The origin of an address that has one of its own is its protocol, two slashes and its host; the
/// other parts are shown behind their signs.
pub proof fn locations_are_made_of_their_parts(u: PartsView, s: Seq<char>)
    ensures
        has_origin(u.scheme) && u.host is Some && u.scheme != "blob"@ ==> shown(
            u,
            LocationPart::Origin,
        ) == shown(u, LocationPart::Protocol) + "//"@ + shown(u, LocationPart::Host),
        !has_origin(u.scheme) && u.scheme != "blob"@ ==> shown(u, LocationPart::Origin) == "null"@,
        shown(u, LocationPart::Protocol) == u.scheme.push(':'),
        u.query == Some(s) ==> shown(u, LocationPart::Search) == seq!['?'] + s,
        u.fragment == Some(s) ==> shown(u, LocationPart::Hash) == seq!['#'] + s,
        u.query is None ==> shown(u, LocationPart::Search).len() == 0,
        u.fragment is None ==> shown(u, LocationPart::Hash).len() == 0,
        u.host is None ==> shown(u, LocationPart::Hostname).len() == 0 && shown(
            u,
            LocationPart::Host,
        ).len() == 0,
        u.host == Some(s) ==> shown(u, LocationPart::Hostname) == s,
        u.port is None ==> shown(u, LocationPart::Port).len() == 0,
        u.port matches Some(p) ==> number::unsigned_value(
            shown(u, LocationPart::Port),
            10,
            65535,
        ) == Some(p as nat),
{
    reveal_strlit(":");
    reveal_strlit("://");
    reveal_strlit("//");
    reveal_strlit("?");
    reveal_strlit("#");
    assert(u.scheme + ":"@ =~= u.scheme.push(':'));
    assert("?"@ =~= seq!['?']);
    assert("#"@ =~= seq!['#']);
    if has_origin(u.scheme) && u.host is Some && u.scheme != "blob"@ {
        let h = u.host->0;
        let origin = shown(u, LocationPart::Origin);
        let parts = shown(u, LocationPart::Protocol) + "//"@ + shown(u, LocationPart::Host);
        assert(origin =~= parts);
    }
    if u.port is Some {
        number::number_text_round_trip(u.port->0 as nat, 10, 65535);
    }
}

/// The addresses with an origin of their own are those of the web, of its sockets and of file
/// transfer; a blob has the origin of the page that made it.
pub proof fn origins_are_known(scheme: Seq<char>, u: PartsView, page: PartsView)
    requires
        u.scheme == "blob"@,
        u.path.len() > 0,
        parsed_url(u.path) == Some(page),
        page.scheme != "blob"@,
    ensures
        has_origin(scheme) <==> scheme == "http"@ || scheme == "https"@ || scheme == "ws"@ || scheme
            == "wss"@ || scheme == "ftp"@,
        shown(u, LocationPart::Origin) == shown(page, LocationPart::Origin),
{
    reveal_with_fuel(origin_of, 2);
}

/// An address that is seen from a base is joined to it, and any other is read as it is.
pub proof fn addresses_are_seen_from_their_base(base: Seq<char>, s: Seq<char>)
    ensures
        resolved(Some(base), s) == joined_url(base, s),
        resolved(None, s) == parsed_url(s),
{
}

} // verus!
