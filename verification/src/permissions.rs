//! What a page's policy permits its scripts to do.
use crate::text;
use vstd::prelude::*;
use vstd::string::*;

verus! {

/// A policy: for each feature that it rules, who may use it. Origins are listed by name, the
/// page's own as `self` and all of them as `*`.
pub struct PermissionsPolicy {
    pub rules: Vec<(String, Vec<String>)>,
}

/// The plain values of rules.
pub open spec fn rules_view(v: Seq<(String, Vec<String>)>) -> Seq<(Seq<char>, Seq<Seq<char>>)> {
    v.map_values(|p: (String, Vec<String>)| (p.0@, text::texts(p.1@)))
}

impl View for PermissionsPolicy {
    type V = Seq<(Seq<char>, Seq<Seq<char>>)>;

    open spec fn view(&self) -> Seq<(Seq<char>, Seq<Seq<char>>)> {
        rules_view(self.rules@)
    }
}

/// Whether a list of origins has the page's own.
pub open spec fn admits(list: Seq<Seq<char>>, origin: Option<Seq<char>>) -> bool {
    list.contains("*"@) || list.contains("self"@) || (origin is Some && list.contains(origin->0))
}

/// Whether a policy permits a feature: by the first rule for it, and where there is none, yes.
pub open spec fn permits(
    rules: Seq<(Seq<char>, Seq<Seq<char>>)>,
    feature: Seq<char>,
    origin: Option<Seq<char>>,
) -> bool
    decreases rules.len(),
{
    if rules.len() == 0 {
        true
    } else if rules[0].0 == feature {
        admits(rules[0].1, origin)
    } else {
        permits(rules.skip(1), feature, origin)
    }
}

/// The view of an optional text.
pub open spec fn opt_view(s: Option<&str>) -> Option<Seq<char>> {
    match s {
        Some(t) => Some(t@),
        None => None,
    }
}

fn lists(list: &Vec<String>, word: &str) -> (r: bool)
    ensures
        r == text::texts(list@).contains(word@),
{
    let ghost t = text::texts(list@);
    let mut i: usize = 0;
    while i < list.len()
        invariant
            i <= list@.len(),
            t == text::texts(list@),
            forall|j: int| 0 <= j < i ==> #[trigger] t[j] != word@,
        decreases list@.len() - i,
    {
        proof {
            assert(t[i as int] == list@[i as int]@);
        }
        if text::same(&list[i], word) {
            return true;
        }
        i = i + 1;
    }
    false
}

/// Puts a policy in place of the one that a page has.
pub fn set_policy(current: &mut PermissionsPolicy, policy: PermissionsPolicy)
    ensures
        *final(current) == policy,
{
    *current = policy;
}

/// Whether a page's policy permits a feature.
pub fn allows(policy: &PermissionsPolicy, feature: &str, origin: Option<&str>) -> (r: bool)
    ensures
        r == permits(policy@, feature@, opt_view(origin)),
{
    let ghost t = policy@;
    let mut i: usize = 0;
    proof {
        assert(t.skip(0) =~= t);
    }
    while i < policy.rules.len()
        invariant
            i <= policy.rules@.len(),
            t == policy@,
            permits(t, feature@, opt_view(origin)) == permits(
                t.skip(i as int),
                feature@,
                opt_view(origin),
            ),
        decreases policy.rules@.len() - i,
    {
        proof {
            let rest = t.skip(i as int);
            assert(rest[0] == (policy.rules@[i as int].0@, text::texts(policy.rules@[i as int].1@)));
            assert(rest.skip(1) =~= t.skip(i + 1));
        }
        if text::same(&policy.rules[i].0, feature) {
            let list = &policy.rules[i].1;
            let named = match origin {
                Some(o) => lists(list, o),
                None => false,
            };
            return lists(list, "*") || lists(list, "self") || named;
        }
        i = i + 1;
    }
    true
}

/// A feature that no rule is for is permitted.
pub proof fn unruled_features_are_allowed(
    rules: Seq<(Seq<char>, Seq<Seq<char>>)>,
    feature: Seq<char>,
    origin: Option<Seq<char>>,
)
    requires
        forall|i: int| 0 <= i < rules.len() ==> (#[trigger] rules[i]).0 != feature,
    ensures
        permits(rules, feature, origin),
    decreases rules.len(),
{
    if rules.len() > 0 {
        assert forall|i: int| 0 <= i < rules.skip(1).len() implies (#[trigger] rules.skip(
            1,
        )[i]).0 != feature by {
            assert(rules.skip(1)[i] == rules[i + 1]);
        }
        unruled_features_are_allowed(rules.skip(1), feature, origin);
    }
}

/// The features of sensors and media that are known, in order.
pub open spec fn known_first() -> Seq<Seq<char>> {
    seq![
        "accelerometer"@,
        "ambient-light-sensor"@,
        "autoplay"@,
        "battery"@,
        "camera"@,
        "clipboard-read"@,
        "clipboard-write"@,
        "display-capture"@,
        "encrypted-media"@,
        "fullscreen"@,
        "gamepad"@,
        "geolocation"@,
    ]
}

/// The other features that are known, in order.
pub open spec fn known_last() -> Seq<Seq<char>> {
    seq![
        "gyroscope"@,
        "magnetometer"@,
        "microphone"@,
        "midi"@,
        "payment"@,
        "picture-in-picture"@,
        "publickey-credentials-get"@,
        "screen-wake-lock"@,
        "serial"@,
        "usb"@,
        "web-share"@,
        "xr-spatial-tracking"@,
    ]
}

/// The features that are known, in order.
pub open spec fn known_features() -> Seq<Seq<char>> {
    known_first() + known_last()
}

fn add_word(out: &mut Vec<String>, word: &str)
    ensures
        text::texts(final(out)@) == text::texts(old(out)@).push(word@),
{
    let ghost before = out@;
    out.push(text::copy(word));
    proof {
        assert(text::texts(out@) =~= text::texts(before).push(word@));
    }
}

fn add_first(out: &mut Vec<String>)
    ensures
        text::texts(final(out)@) == text::texts(old(out)@) + known_first(),
{
    let ghost before = text::texts(out@);
    add_word(out, "accelerometer");
    add_word(out, "ambient-light-sensor");
    add_word(out, "autoplay");
    add_word(out, "battery");
    add_word(out, "camera");
    add_word(out, "clipboard-read");
    add_word(out, "clipboard-write");
    add_word(out, "display-capture");
    add_word(out, "encrypted-media");
    add_word(out, "fullscreen");
    add_word(out, "gamepad");
    add_word(out, "geolocation");
    proof {
        assert(text::texts(out@) =~= before + known_first());
    }
}

fn add_last(out: &mut Vec<String>)
    ensures
        text::texts(final(out)@) == text::texts(old(out)@) + known_last(),
{
    let ghost before = text::texts(out@);
    add_word(out, "gyroscope");
    add_word(out, "magnetometer");
    add_word(out, "microphone");
    add_word(out, "midi");
    add_word(out, "payment");
    add_word(out, "picture-in-picture");
    add_word(out, "publickey-credentials-get");
    add_word(out, "screen-wake-lock");
    add_word(out, "serial");
    add_word(out, "usb");
    add_word(out, "web-share");
    add_word(out, "xr-spatial-tracking");
    proof {
        assert(text::texts(out@) =~= before + known_last());
    }
}

/// The features that are known, in order.
pub fn features() -> (r: Vec<String>)
    ensures
        text::texts(r@) == known_features(),
{
    let mut out: Vec<String> = Vec::new();
    proof {
        assert(text::texts(out@) + known_first() =~= known_first());
    }
    add_first(&mut out);
    add_last(&mut out);
    out
}

/// Whether a policy permits a feature, of features.
pub open spec fn is_permitted(
    rules: Seq<(Seq<char>, Seq<Seq<char>>)>,
    origin: Option<Seq<char>>,
) -> spec_fn(Seq<char>) -> bool {
    |f: Seq<char>| permits(rules, f, origin)
}

/// The known features that a page's policy permits, in order.
pub fn allowed_features(policy: &PermissionsPolicy, origin: Option<&str>) -> (r: Vec<String>)
    ensures
        text::texts(r@) == known_features().filter(is_permitted(policy@, opt_view(origin))),
{
    let all = features();
    let ghost t = text::texts(all@);
    let ghost keep = is_permitted(policy@, opt_view(origin));
    let mut out: Vec<String> = Vec::new();
    let mut i: usize = 0;
    proof {
        reveal(Seq::filter);
        assert(text::texts(out@) =~= t.take(0).filter(keep));
    }
    while i < all.len()
        invariant
            i <= all@.len(),
            t == text::texts(all@),
            keep == is_permitted(policy@, opt_view(origin)),
            text::texts(out@) == t.take(i as int).filter(keep),
        decreases all@.len() - i,
    {
        proof {
            reveal(Seq::filter);
            assert(t.take(i + 1).drop_last() =~= t.take(i as int));
            assert(t.take(i + 1).last() == all@[i as int]@);
        }
        if allows(policy, &all[i], origin) {
            add_word(&mut out, &all[i]);
        }
        i = i + 1;
    }
    proof {
        assert(t.take(t.len() as int) =~= t);
    }
    out
}

/// The first rule for a feature decides, and rules for other features say nothing of it. An empty list
/// permits nobody, a star or the word for the page itself everybody, and any other list the origins
/// that it has.
pub proof fn first_rule_decides(
    rules: Seq<(Seq<char>, Seq<Seq<char>>)>,
    feature: Seq<char>,
    other: Seq<char>,
    list: Seq<Seq<char>>,
    origin: Seq<char>,
)
    ensures
        permits(seq![(feature, list)] + rules, feature, Some(origin)) <==> list.contains("*"@)
            || list.contains("self"@) || list.contains(origin),
        permits(seq![(feature, list)] + rules, feature, None) <==> list.contains("*"@)
            || list.contains("self"@),
        other != feature ==> permits(seq![(other, list)] + rules, feature, Some(origin)) == permits(
            rules,
            feature,
            Some(origin),
        ),
        list.len() == 0 ==> !permits(seq![(feature, list)] + rules, feature, Some(origin)),
{
    let v = seq![(feature, list)] + rules;
    let w = seq![(other, list)] + rules;
    assert(v[0] == (feature, list));
    assert(w[0] == (other, list));
    assert(w.skip(1) =~= rules);
}

/// The features that a policy permits are those of the known ones that it permits one by one.
pub proof fn permitted_features_are_known(
    rules: Seq<(Seq<char>, Seq<Seq<char>>)>,
    origin: Option<Seq<char>>,
    f: Seq<char>,
)
    ensures
        known_features().filter(is_permitted(rules, origin)).contains(f)
            <==> known_features().contains(f) && permits(rules, f, origin),
{
    let v = known_features();
    let p = is_permitted(rules, origin);
    if v.filter(p).contains(f) {
        v.lemma_filter_pred(p, v.filter(p).index_of(f));
        v.lemma_filter_contains_rev(p, f);
    }
    if v.contains(f) && p(f) {
        v.lemma_filter_contains(p, v.index_of(f));
    }
}

} // verus!
