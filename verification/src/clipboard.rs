//! The clipboard, and the data that a drag carries along.
use crate::file;
use crate::file::{BlobEntry, BlobView};
use crate::number;
use crate::pairs;
use crate::registry;
use crate::registry::{Registry, RegistryView};
use crate::text;
use vstd::prelude::*;
use vstd::string::*;
use vstd::utf8::*;

verus! {

broadcast use crate::registry::group_registry;

/// The name of a format as it is kept: in small letters, the short names written out.
pub open spec fn canonical(fmt: Seq<char>) -> Seq<char> {
    let low = text::lower(fmt);
    if low == "text"@ {
        "text/plain"@
    } else if low == "url"@ {
        "text/uri-list"@
    } else {
        low
    }
}

/// The name of a format as it is kept.
pub fn canonical_format(fmt: &str) -> (r: String)
    ensures
        r@ == canonical(fmt@),
{
    let low = text::lower_text(fmt);
    if text::same(&low, "text") {
        text::copy("text/plain")
    } else if text::same(&low, "url") {
        text::copy("text/uri-list")
    } else {
        low
    }
}

/// What a drag carries: data by format, blobs, and what it may do.
pub struct DataTransferState {
    pub items: Vec<(String, String)>,
    pub files: Vec<u32>,
    pub drop_effect: String,
    pub effect_allowed: String,
}

/// What a drag carries, over plain values.
pub ghost struct TransferView {
    pub items: Seq<(Seq<char>, Seq<char>)>,
    pub files: Seq<u32>,
    pub drop_effect: Seq<char>,
    pub effect_allowed: Seq<char>,
}

impl View for DataTransferState {
    type V = TransferView;

    open spec fn view(&self) -> TransferView {
        TransferView {
            items: text::pair_texts(self.items@),
            files: self.files@,
            drop_effect: self.drop_effect@,
            effect_allowed: self.effect_allowed@,
        }
    }
}

/// Whether an item is of the format.
pub open spec fn of_format(fmt: Seq<char>) -> spec_fn((Seq<char>, Seq<char>)) -> bool {
    |p: (Seq<char>, Seq<char>)| canonical(p.0) == canonical(fmt)
}

/// Whether an item is of another format.
pub open spec fn not_of_format(fmt: Seq<char>) -> spec_fn((Seq<char>, Seq<char>)) -> bool {
    |p: (Seq<char>, Seq<char>)| canonical(p.0) != canonical(fmt)
}

/// The data in a format, empty where there is none.
pub open spec fn data_in(items: Seq<(Seq<char>, Seq<char>)>, fmt: Seq<char>) -> Seq<char> {
    let i = pairs::position(items, of_format(fmt));
    if i < items.len() {
        items[i].1
    } else {
        Seq::empty()
    }
}

/// The items with data in a format in place of what was there.
pub open spec fn with_data(
    items: Seq<(Seq<char>, Seq<char>)>,
    fmt: Seq<char>,
    value: Seq<char>,
) -> Seq<(Seq<char>, Seq<char>)> {
    items.filter(not_of_format(fmt)).push((canonical(fmt), value))
}

impl DataTransferState {
    /// What a drag carries at first: nothing, and it may do anything.
    pub fn new() -> (r: Self)
        ensures
            r@ == (TransferView {
                items: Seq::empty(),
                files: Seq::empty(),
                drop_effect: "none"@,
                effect_allowed: "all"@,
            }),
    {
        let r = DataTransferState {
            items: Vec::new(),
            files: Vec::new(),
            drop_effect: text::copy("none"),
            effect_allowed: text::copy("all"),
        };
        proof {
            assert(r@.items =~= Seq::empty());
            assert(r@.files =~= Seq::empty());
        }
        r
    }

    /// The data in a format, empty where there is none.
    pub fn dt_get_data(&self, fmt: &str) -> (r: String)
        ensures
            r@ == data_in(self@.items, fmt@),
    {
        let wanted = canonical_format(fmt);
        let ghost t = self@.items;
        let ghost p = of_format(fmt@);
        let mut i: usize = 0;
        while i < self.items.len()
            invariant
                i <= self.items@.len(),
                t == self@.items,
                p == of_format(fmt@),
                wanted@ == canonical(fmt@),
                forall|j: int| 0 <= j < i ==> !p(#[trigger] t[j]),
            decreases self.items@.len() - i,
        {
            let own = canonical_format(&self.items[i].0);
            proof {
                assert(t[i as int] == (self.items@[i as int].0@, self.items@[i as int].1@));
            }
            if text::same(&own, &wanted) {
                proof {
                    pairs::lemma_position(t, p, i as int);
                }
                return text::copy(&self.items[i].1);
            }
            i = i + 1;
        }
        proof {
            pairs::lemma_position(t, p, i as int);
        }
        String::new()
    }

    fn drop_format(&mut self, fmt: &str)
        ensures
            final(self)@ == (TransferView {
                items: old(self)@.items.filter(not_of_format(fmt@)),
                ..old(self)@
            }),
    {
        let wanted = canonical_format(fmt);
        let ghost t = self@.items;
        let ghost keep = not_of_format(fmt@);
        let mut out: Vec<(String, String)> = Vec::new();
        let mut i: usize = 0;
        proof {
            reveal(Seq::filter);
            assert(text::pair_texts(out@) =~= t.take(0).filter(keep));
        }
        while i < self.items.len()
            invariant
                i <= self.items@.len(),
                t == self@.items,
                keep == not_of_format(fmt@),
                wanted@ == canonical(fmt@),
                text::pair_texts(out@) == t.take(i as int).filter(keep),
            decreases self.items@.len() - i,
        {
            let ghost prev = out@;
            let own = canonical_format(&self.items[i].0);
            proof {
                reveal(Seq::filter);
                assert(t.take(i + 1).drop_last() =~= t.take(i as int));
                assert(t.take(i + 1).last() == (self.items@[i as int].0@, self.items@[i as int].1@));
            }
            if !text::same(&own, &wanted) {
                out.push((text::copy(&self.items[i].0), text::copy(&self.items[i].1)));
                proof {
                    assert(text::pair_texts(out@) =~= text::pair_texts(prev).push(t[i as int]));
                }
            }
            i = i + 1;
        }
        proof {
            assert(t.take(t.len() as int) =~= t);
        }
        self.items = out;
    }

    /// Puts data in a format in place of what was there.
    pub fn dt_set_data(&mut self, fmt: &str, value: String)
        ensures
            final(self)@ == (TransferView {
                items: with_data(old(self)@.items, fmt@, value@),
                ..old(self)@
            }),
    {
        self.drop_format(fmt);
        let ghost before = self.items@;
        let ghost v = value@;
        self.items.push((canonical_format(fmt), value));
        proof {
            assert(text::pair_texts(self.items@) =~= text::pair_texts(before).push(
                (canonical(fmt@), v),
            ));
        }
    }

    /// Drops the data in a format, or all of it.
    pub fn dt_clear_data(&mut self, fmt: Option<&str>)
        ensures
            final(self)@ == (TransferView {
                items: match fmt {
                    Some(f) => old(self)@.items.filter(not_of_format(f@)),
                    None => Seq::empty(),
                },
                ..old(self)@
            }),
    {
        match fmt {
            Some(f) => self.drop_format(f),
            None => {
                self.items.clear();
                proof {
                    assert(self@.items =~= Seq::empty());
                }
            },
        }
    }

    /// The formats of the data, in order.
    pub fn dt_get_types(&self) -> (r: Vec<String>)
        ensures
            text::texts(r@) == self@.items.map_values(|p: (Seq<char>, Seq<char>)| p.0),
    {
        let ghost goal = self@.items.map_values(|p: (Seq<char>, Seq<char>)| p.0);
        let mut out: Vec<String> = Vec::new();
        let mut i: usize = 0;
        proof {
            assert(text::texts(out@) =~= goal.take(0));
        }
        while i < self.items.len()
            invariant
                i <= self.items@.len(),
                goal == self@.items.map_values(|p: (Seq<char>, Seq<char>)| p.0),
                text::texts(out@) == goal.take(i as int),
            decreases self.items@.len() - i,
        {
            let ghost prev = out@;
            out.push(text::copy(&self.items[i].0));
            proof {
                assert(text::texts(out@) =~= text::texts(prev).push(goal[i as int]));
                assert(goal.take(i + 1) =~= goal.take(i as int).push(goal[i as int]));
            }
            i = i + 1;
        }
        proof {
            assert(goal.take(goal.len() as int) =~= goal);
        }
        out
    }
}

/// The name of a format as it is kept stays as it is.
pub proof fn canonical_is_stable(fmt: Seq<char>)
    ensures
        canonical(canonical(fmt)) == canonical(fmt),
{
    reveal_strlit("text/plain");
    reveal_strlit("text/uri-list");
    reveal_strlit("text");
    reveal_strlit("url");
    let low = text::lower(fmt);
    assert forall|i: int| 0 <= i < low.len() implies #[trigger] text::lower(low)[i] == low[i] by {
        text::lemma_lower_char(fmt[i]);
    }
    assert(text::lower(low) =~= low);
    assert(text::lower("text/plain"@) =~= "text/plain"@);
    assert(text::lower("text/uri-list"@) =~= "text/uri-list"@);
    assert("text/plain"@.len() == 10);
    assert("text/uri-list"@.len() == 13);
    assert("text"@.len() == 4 && "url"@.len() == 3);
}

/// Data that was set is read back in its format, however its name is written; data in other
/// formats stays as it was.
pub proof fn set_data_is_read(
    items: Seq<(Seq<char>, Seq<char>)>,
    fmt: Seq<char>,
    written: Seq<char>,
    value: Seq<char>,
)
    ensures
        canonical(written) == canonical(fmt) ==> data_in(with_data(items, fmt, value), written)
            == value,
        canonical(written) != canonical(fmt) ==> data_in(with_data(items, fmt, value), written)
            == data_in(items, written),
{
    canonical_is_stable(fmt);
    let rest = items.filter(not_of_format(fmt));
    let w = with_data(items, fmt, value);
    let p = of_format(written);
    if canonical(written) == canonical(fmt) {
        assert forall|j: int| 0 <= j < rest.len() implies !p(#[trigger] w[j]) by {
            items.lemma_filter_pred(not_of_format(fmt), j);
            assert(w[j] == rest[j]);
        }
        pairs::lemma_position(w, p, rest.len() as int);
    } else {
        lemma_filter_keeps(items, fmt, written);
        lemma_data_push(rest, written, (canonical(fmt), value));
    }
}

proof fn lemma_data_push(
    v: Seq<(Seq<char>, Seq<char>)>,
    written: Seq<char>,
    x: (Seq<char>, Seq<char>),
)
    requires
        !of_format(written)(x),
    ensures
        data_in(v.push(x), written) == data_in(v, written),
{
    let p = of_format(written);
    let w = v.push(x);
    pairs::lemma_position_holds(v, p);
    let i = pairs::position(v, p);
    if i < v.len() {
        assert forall|j: int| 0 <= j < i implies !p(#[trigger] w[j]) by {
            assert(w[j] == v[j]);
        }
        assert(w[i] == v[i]);
        pairs::lemma_position(w, p, i);
    } else {
        assert forall|j: int| 0 <= j < w.len() implies !p(#[trigger] w[j]) by {
            if j < v.len() {
                assert(w[j] == v[j]);
            }
        }
        pairs::lemma_position(w, p, w.len() as int);
    }
}

proof fn lemma_filter_keeps(
    v: Seq<(Seq<char>, Seq<char>)>,
    fmt: Seq<char>,
    written: Seq<char>,
)
    requires
        canonical(written) != canonical(fmt),
    ensures
        data_in(v.filter(not_of_format(fmt)), written) == data_in(v, written),
    decreases v.len(),
{
    reveal(Seq::filter);
    if v.len() > 0 {
        let w = v.drop_last();
        lemma_filter_keeps(w, fmt, written);
        let x = v.last();
        assert(v =~= w.push(x));
        if of_format(written)(x) {
            lemma_data_found(w, written, x);
            lemma_data_found(w.filter(not_of_format(fmt)), written, x);
            lemma_same_misses(w, fmt, written);
        } else {
            lemma_data_push(w, written, x);
            if not_of_format(fmt)(x) {
                lemma_data_push(w.filter(not_of_format(fmt)), written, x);
            }
        }
    }
}

proof fn lemma_data_found(
    v: Seq<(Seq<char>, Seq<char>)>,
    written: Seq<char>,
    x: (Seq<char>, Seq<char>),
)
    requires
        of_format(written)(x),
    ensures
        data_in(v.push(x), written) == (if pairs::position(v, of_format(written)) < v.len() {
            data_in(v, written)
        } else {
            x.1
        }),
{
    let p = of_format(written);
    let w = v.push(x);
    pairs::lemma_position_holds(v, p);
    let i = pairs::position(v, p);
    if i < v.len() {
        assert forall|j: int| 0 <= j < i implies !p(#[trigger] w[j]) by {
            assert(w[j] == v[j]);
        }
        assert(w[i] == v[i]);
        pairs::lemma_position(w, p, i);
    } else {
        assert forall|j: int| 0 <= j < v.len() implies !p(#[trigger] w[j]) by {
            assert(w[j] == v[j]);
        }
        pairs::lemma_position(w, p, v.len() as int);
    }
}

proof fn lemma_same_misses(v: Seq<(Seq<char>, Seq<char>)>, fmt: Seq<char>, written: Seq<char>)
    requires
        canonical(written) != canonical(fmt),
    ensures
        (pairs::position(v, of_format(written)) < v.len()) == (pairs::position(
            v.filter(not_of_format(fmt)),
            of_format(written),
        ) < v.filter(not_of_format(fmt)).len()),
{
    let p = of_format(written);
    let keep = not_of_format(fmt);
    let f = v.filter(keep);
    pairs::lemma_position_holds(v, p);
    pairs::lemma_position_holds(f, p);
    let i = pairs::position(v, p);
    let k = pairs::position(f, p);
    if i < v.len() {
        assert(keep(v[i]));
        v.lemma_filter_contains(keep, i);
        let m = choose|m: int| 0 <= m < f.len() && f[m] == v[i];
        assert(p(f[m]));
    }
    if k < f.len() {
        assert(f.contains(f[k]));
        v.lemma_filter_contains_rev(keep, f[k]);
        let m = choose|m: int| 0 <= m < v.len() && v[m] == f[k];
        assert(p(v[m]));
    }
}

/// What a dropped file shows.
pub struct DroppedFile {
    pub blob: u32,
    pub size: u32,
    pub mime: String,
    pub name: String,
}

/// What a dropped file shows, over plain values.
pub ghost struct DroppedView {
    pub blob: u32,
    pub size: int,
    pub mime: Seq<char>,
    pub name: Seq<char>,
}

impl View for DroppedFile {
    type V = DroppedView;

    open spec fn view(&self) -> DroppedView {
        DroppedView {
            blob: self.blob,
            size: self.size as int,
            mime: self.mime@,
            name: self.name@,
        }
    }
}

/// What the dropped files that are there show, in order.
pub open spec fn dropped(blobs: RegistryView<BlobView>, files: Seq<u32>) -> Seq<DroppedView>
    decreases files.len(),
{
    if files.len() == 0 {
        Seq::empty()
    } else {
        let before = dropped(blobs, files.drop_last());
        match blobs.found(files.last()) {
            Some(b) => before.push(
                DroppedView {
                    blob: files.last(),
                    size: (b.bytes.len() % 0x1_0000_0000) as int,
                    mime: b.mime,
                    name: "dropped-"@ + number::decimal(files.last() as nat),
                },
            ),
            None => before,
        }
    }
}

/// The plain values of dropped files.
pub open spec fn dropped_views(v: Seq<DroppedFile>) -> Seq<DroppedView> {
    v.map_values(|d: DroppedFile| d@)
}

/// What the dropped files that are there show, in order.
pub fn dt_get_files(blobs: &Registry<BlobEntry>, files: &Vec<u32>) -> (r: Vec<DroppedFile>)
    ensures
        dropped_views(r@) == dropped(registry::views(blobs@), files@),
{
    let ghost bv = registry::views(blobs@);
    let mut out: Vec<DroppedFile> = Vec::new();
    let mut i: usize = 0;
    proof {
        assert(dropped_views(out@) =~= dropped(bv, files@.take(0)));
    }
    while i < files.len()
        invariant
            i <= files@.len(),
            bv == registry::views(blobs@),
            dropped_views(out@) == dropped(bv, files@.take(i as int)),
        decreases files@.len() - i,
    {
        let id: u32 = files[i];
        proof {
            assert(files@.take(i + 1).drop_last() =~= files@.take(i as int));
            assert(files@.take(i + 1).last() == id);
        }
        match blobs.get(id) {
            Some(b) => {
                let mut name = text::to_chars("dropped-");
                let d = number::write_decimal(id as u128);
                text::push_chars(&mut name, &d);
                let size: u64 = b.bytes.len() as u64;
                let file = DroppedFile {
                    blob: id,
                    size: (size % 0x1_0000_0000) as u32,
                    mime: text::copy(&b.mime),
                    name: text::to_text(&name),
                };
                let ghost prev = out@;
                let ghost fv = file@;
                out.push(file);
                proof {
                    assert(dropped_views(out@) =~= dropped_views(prev).push(fv));
                }
            },
            None => {},
        }
        i = i + 1;
    }
    proof {
        assert(files@.take(files@.len() as int) =~= files@);
    }
    out
}

/// Notes a text that goes to the clipboard, for when the system's cannot be read.
pub fn clipboard_write_text(fallback: &mut String, words: &str)
    ensures
        final(fallback)@ == words@,
{
    *fallback = text::copy(words);
}

/// The text of the clipboard: the system's where it could be read, or else the noted one.
pub fn clipboard_read_text(fallback: &String, system: Option<String>) -> (r: String)
    ensures
        r@ == match system {
            Some(s) => s@,
            None => fallback@,
        },
{
    match system {
        Some(s) => s,
        None => text::copy(fallback),
    }
}

/// An item for the clipboard: its types, and the blob that it holds as plain text.
pub struct ClipboardItem {
    pub types: Vec<String>,
    pub text_blob: Option<u32>,
}

/// The blob whose text an item gives to the clipboard.
pub open spec fn item_blob(blobs: RegistryView<BlobView>, item: ClipboardItem) -> Option<BlobView> {
    if text::texts(item.types@).contains("text/plain"@) && item.text_blob is Some {
        blobs.found(item.text_blob->0)
    } else {
        None
    }
}

/// The blob whose text items give to the clipboard: that of the first that gives one.
pub open spec fn items_blob(
    blobs: RegistryView<BlobView>,
    items: Seq<ClipboardItem>,
) -> Option<BlobView>
    decreases items.len(),
{
    if items.len() == 0 {
        None
    } else {
        match item_blob(blobs, items[0]) {
            Some(b) => Some(b),
            None => items_blob(blobs, items.skip(1)),
        }
    }
}

fn is_plain(types: &Vec<String>) -> (r: bool)
    ensures
        r == text::texts(types@).contains("text/plain"@),
{
    let ghost t = text::texts(types@);
    let mut i: usize = 0;
    while i < types.len()
        invariant
            i <= types@.len(),
            t == text::texts(types@),
            forall|j: int| 0 <= j < i ==> #[trigger] t[j] != "text/plain"@,
        decreases types@.len() - i,
    {
        proof {
            assert(t[i as int] == types@[i as int]@);
        }
        if text::same(&types[i], "text/plain") {
            return true;
        }
        i = i + 1;
    }
    false
}

/// The text that items give to the clipboard, which is also noted.
pub fn clipboard_write_items(
    blobs: &Registry<BlobEntry>,
    items: &Vec<ClipboardItem>,
    fallback: &mut String,
) -> (r: Option<String>)
    ensures
        match items_blob(registry::views(blobs@), items@) {
            Some(b) => (r matches Some(s) && s@ == file::lossy_text(b.bytes) && (valid_utf8(
                b.bytes,
            ) ==> s@ == decode_utf8(b.bytes))) && final(fallback)@ == file::lossy_text(b.bytes),
            None => r is None && final(fallback)@ == old(fallback)@,
        },
{
    let ghost bv = registry::views(blobs@);
    let mut i: usize = 0;
    proof {
        assert(items@.skip(0) =~= items@);
    }
    while i < items.len()
        invariant
            i <= items@.len(),
            bv == registry::views(blobs@),
            items_blob(bv, items@) == items_blob(bv, items@.skip(i as int)),
            fallback@ == old(fallback)@,
        decreases items@.len() - i,
    {
        proof {
            assert(items@.skip(i as int)[0] == items@[i as int]);
            assert(items@.skip(i as int).skip(1) =~= items@.skip(i + 1));
        }
        if is_plain(&items[i].types) {
            match items[i].text_blob {
                Some(id) => match file::read_blob_bytes(blobs, id) {
                    Some(b) => {
                        let words = file::from_utf8_lossy(&b);
                        clipboard_write_text(fallback, &words);
                        return Some(words);
                    },
                    None => {},
                },
                None => {},
            }
        }
        i = i + 1;
    }
    None
}

/// Keeps the text of the clipboard as a blob, and gives its number.
pub fn clipboard_read_items(
    blobs: &mut Registry<BlobEntry>,
    fallback: &String,
    system: Option<String>,
) -> (r: u32)
    ensures
        r == old(blobs)@.next,
        registry::views(final(blobs)@) == registry::views(old(blobs)@).added(
            (BlobView {
                bytes: encode_utf8(
                    match system {
                        Some(s) => s@,
                        None => fallback@,
                    },
                ),
                mime: "text/plain"@,
            }),
        ),
{
    let words = clipboard_read_text(fallback, system);
    let content = crate::bytes::copy_bytes(words.as_str().as_bytes());
    file::store_blob(blobs, content, text::copy("text/plain"))
}

/// The short names of formats stand for plain text and for addresses, in letters of either case; all
/// other names are the same in letters of either case, and different otherwise.
pub proof fn formats_have_short_names(fmt: Seq<char>)
    ensures
        text::lower(fmt) == "text"@ ==> canonical(fmt) == "text/plain"@,
        text::lower(fmt) == "url"@ ==> canonical(fmt) == "text/uri-list"@,
        text::lower(fmt) != "text"@ && text::lower(fmt) != "url"@ ==> canonical(fmt) == text::lower(
            fmt,
        ),
        canonical(text::lower(fmt)) == canonical(fmt),
{
    reveal_strlit("text");
    reveal_strlit("url");
    assert("text"@.len() == 4 && "url"@.len() == 3);
    let l = text::lower(fmt);
    assert forall|i: int| 0 <= i < fmt.len() implies text::lower(l)[i] == l[i] by {
        text::letters_change_case(fmt[i], fmt, i);
        text::letters_change_case(l[i], l, i);
    }
    assert(text::lower(l) =~= l);
}

/// The dropped files that show are those that are there, in order, each with its blob's size and type.
pub proof fn dropped_files_show(
    blobs: RegistryView<BlobView>,
    a: Seq<u32>,
    b: Seq<u32>,
    id: u32,
)
    ensures
        dropped(blobs, a + b) == dropped(blobs, a) + dropped(blobs, b),
        blobs.found(id) is None ==> dropped(blobs, seq![id]).len() == 0,
        blobs.found(id) matches Some(x) ==> {
            let d = dropped(blobs, seq![id]);
            &&& d.len() == 1
            &&& d[0].blob == id
            &&& x.bytes.len() <= u32::MAX ==> d[0].size == x.bytes.len()
            &&& d[0].mime == x.mime
            &&& text::ends(d[0].name, number::decimal(id as nat))
        },
    decreases b.len(),
{
    reveal_with_fuel(dropped, 2);
    assert(seq![id].drop_last() =~= Seq::<u32>::empty());
    text::beginnings_and_ends(
        Seq::empty(),
        number::decimal(id as nat),
        "dropped-"@,
    );
    if b.len() == 0 {
        assert(a + b =~= a);
        assert(dropped(blobs, a) + dropped(blobs, b) =~= dropped(blobs, a));
    } else {
        dropped_files_show(blobs, a, b.drop_last(), id);
        assert((a + b).drop_last() =~= a + b.drop_last());
        assert((a + b).last() == b.last());
        assert(dropped(blobs, a + b) =~= dropped(blobs, a) + dropped(blobs, b));
    }
}

/// Items give the clipboard the text of the first that has plain text and whose blob is there.
pub proof fn first_text_is_given(
    blobs: RegistryView<BlobView>,
    items: Seq<ClipboardItem>,
    i: int,
)
    requires
        0 <= i < items.len(),
        forall|j: int| 0 <= j < i ==> item_blob(blobs, #[trigger] items[j]) is None,
    ensures
        item_blob(blobs, items[i]) is Some ==> items_blob(blobs, items) == item_blob(
            blobs,
            items[i],
        ),
        i == items.len() - 1 && item_blob(blobs, items[i]) is None ==> items_blob(blobs, items)
            is None,
        item_blob(blobs, items[i]) matches Some(b) ==> text::texts(items[i].types@).contains(
            "text/plain"@,
        ) && (items[i].text_blob matches Some(n) && blobs.found(n) == Some(b)),
        !text::texts(items[i].types@).contains("text/plain"@) ==> item_blob(blobs, items[i]) is None,
    decreases i,
{
    reveal_with_fuel(items_blob, 2);
    if i > 0 {
        assert(item_blob(blobs, items[0]) is None);
        let rest = items.skip(1);
        assert forall|j: int| 0 <= j < i - 1 implies item_blob(blobs, #[trigger] rest[j])
            is None by {
            assert(rest[j] == items[j + 1]);
        }
        first_text_is_given(blobs, rest, i - 1);
        assert(rest[i - 1] == items[i]);
    } else if items.len() == 1 {
        assert(items.skip(1).len() == 0);
    }
}

/// Data that were dropped are gone, whatever way their format is written, and all other data stay.
pub proof fn dropped_data_are_gone(
    items: Seq<(Seq<char>, Seq<char>)>,
    fmt: Seq<char>,
    p: (Seq<char>, Seq<char>),
)
    ensures
        items.filter(not_of_format(fmt)).contains(p) <==> items.contains(p) && canonical(p.0)
            != canonical(fmt),
        data_in(items.filter(not_of_format(fmt)), fmt).len() == 0,
{
    let f = not_of_format(fmt);
    let w = items.filter(f);
    if w.contains(p) {
        items.lemma_filter_pred(f, w.index_of(p));
        items.lemma_filter_contains_rev(f, p);
    }
    if items.contains(p) && f(p) {
        items.lemma_filter_contains(f, items.index_of(p));
    }
    pairs::lemma_position_holds(w, of_format(fmt));
    let i = pairs::position(w, of_format(fmt));
    if i < w.len() {
        items.lemma_filter_pred(f, i);
    }
}

} // verus!
