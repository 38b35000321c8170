//! Form data: named values, and the body in which they are sent.
use crate::bytes;
use crate::file;
use crate::file::{BlobEntry, BlobView};
use crate::forms;
use crate::number;
use crate::pairs;
use crate::registry;
use crate::registry::{Registry, RegistryView};
use crate::text;
use crate::tree;
use crate::tree::{Dom, NodeId};
use vstd::prelude::*;
use vstd::string::*;
use vstd::utf8::*;

verus! {

broadcast use crate::registry::group_registry;

/// A value: a text, or bytes with a file name and a type.
pub enum FormDataValue {
    String(String),
    Blob { bytes: Vec<u8>, filename: String, mime: String },
}

/// A value over plain characters.
pub enum ValueView {
    String(Seq<char>),
    Blob { bytes: Seq<u8>, filename: Seq<char>, mime: Seq<char> },
}

impl View for FormDataValue {
    type V = ValueView;

    open spec fn view(&self) -> ValueView {
        match self {
            FormDataValue::String(s) => ValueView::String(s@),
            FormDataValue::Blob { bytes, filename, mime } => ValueView::Blob {
                bytes: bytes@,
                filename: filename@,
                mime: mime@,
            },
        }
    }
}

/// Named values, in the order in which they were added.
pub struct FormDataState {
    pub entries: Vec<(String, FormDataValue)>,
}

/// The plain values of entries.
pub open spec fn entries_view(v: Seq<(String, FormDataValue)>) -> Seq<(Seq<char>, ValueView)> {
    v.map_values(|p: (String, FormDataValue)| (p.0@, p.1@))
}

impl View for FormDataState {
    type V = Seq<(Seq<char>, ValueView)>;

    open spec fn view(&self) -> Seq<(Seq<char>, ValueView)> {
        entries_view(self.entries@)
    }
}

/// The entries with a name.
pub open spec fn named(name: Seq<char>) -> spec_fn((Seq<char>, ValueView)) -> bool {
    |p: (Seq<char>, ValueView)| p.0 == name
}

/// The entries with another name.
pub open spec fn not_named(name: Seq<char>) -> spec_fn((Seq<char>, ValueView)) -> bool {
    |p: (Seq<char>, ValueView)| p.0 != name
}

/// The first value with a name.
pub open spec fn first_value(v: Seq<(Seq<char>, ValueView)>, name: Seq<char>) -> Option<ValueView> {
    let i = pairs::position(v, named(name));
    if i < v.len() {
        Some(v[i].1)
    } else {
        None
    }
}

/// The values of entries.
pub open spec fn values_of(v: Seq<(Seq<char>, ValueView)>) -> Seq<ValueView> {
    v.map_values(|p: (Seq<char>, ValueView)| p.1)
}

/// The plain values of values.
pub open spec fn value_views(v: Seq<FormDataValue>) -> Seq<ValueView> {
    v.map_values(|p: FormDataValue| p@)
}

/// A copy of a value.
pub fn copy_value(v: &FormDataValue) -> (r: FormDataValue)
    ensures
        r@ == v@,
{
    match v {
        FormDataValue::String(s) => FormDataValue::String(text::copy(s)),
        FormDataValue::Blob { bytes, filename, mime } => FormDataValue::Blob {
            bytes: bytes::copy_bytes(bytes),
            filename: text::copy(filename),
            mime: text::copy(mime),
        },
    }
}

impl Default for FormDataState {
    fn default() -> (r: Self)
        ensures
            r@ == Seq::<(Seq<char>, ValueView)>::empty(),
    {
        let r = FormDataState { entries: Vec::new() };
        proof {
            assert(r@ =~= Seq::empty());
        }
        r
    }
}

impl FormDataState {
    /// Adds a value behind those that are there.
    pub fn formdata_append(&mut self, name: String, value: FormDataValue)
        ensures
            final(self)@ == old(self)@.push((name@, value@)),
    {
        let ghost before = self@;
        let ghost p = (name@, value@);
        self.entries.push((name, value));
        proof {
            assert(self@ =~= before.push(p));
        }
    }

    /// Drops the values with a name.
    pub fn formdata_delete(&mut self, name: &str)
        ensures
            final(self)@ == old(self)@.filter(not_named(name@)),
    {
        let ghost t = self@;
        let ghost keep = not_named(name@);
        let mut out: Vec<(String, FormDataValue)> = Vec::new();
        let mut i: usize = 0;
        proof {
            reveal(Seq::filter);
            assert(entries_view(out@) =~= t.take(0).filter(keep));
        }
        while i < self.entries.len()
            invariant
                i <= self.entries@.len(),
                t == self@,
                keep == not_named(name@),
                entries_view(out@) == t.take(i as int).filter(keep),
            decreases self.entries@.len() - i,
        {
            let ghost prev = out@;
            proof {
                reveal(Seq::filter);
                assert(t.take(i + 1).drop_last() =~= t.take(i as int));
                assert(t.take(i + 1).last() == (
                    self.entries@[i as int].0@,
                    self.entries@[i as int].1@,
                ));
            }
            if !text::same(&self.entries[i].0, name) {
                out.push((text::copy(&self.entries[i].0), copy_value(&self.entries[i].1)));
                proof {
                    assert(entries_view(out@) =~= entries_view(prev).push(t[i as int]));
                }
            }
            i = i + 1;
        }
        proof {
            assert(t.take(t.len() as int) =~= t);
        }
        self.entries = out;
    }

    /// Puts a value in place of all with its name, behind those that are there.
    pub fn formdata_set(&mut self, name: String, value: FormDataValue)
        ensures
            final(self)@ == old(self)@.filter(not_named(name@)).push((name@, value@)),
    {
        self.formdata_delete(&name);
        self.formdata_append(name, value);
    }

    fn find(&self, name: &str) -> (r: usize)
        ensures
            r == pairs::position(self@, named(name@)),
            r <= self.entries@.len(),
    {
        let ghost t = self@;
        let ghost p = named(name@);
        let mut i: usize = 0;
        while i < self.entries.len() && !text::same(&self.entries[i].0, name)
            invariant
                i <= self.entries@.len(),
                t == self@,
                p == named(name@),
                forall|j: int| 0 <= j < i ==> !p(#[trigger] t[j]),
            decreases self.entries@.len() - i,
        {
            proof {
                assert(t[i as int].0 == self.entries@[i as int].0@);
            }
            i = i + 1;
        }
        proof {
            if i < t.len() {
                assert(t[i as int].0 == self.entries@[i as int].0@);
            }
            pairs::lemma_position(t, p, i as int);
        }
        i
    }

    /// The first value with a name.
    pub fn formdata_get(&self, name: &str) -> (r: Option<FormDataValue>)
        ensures
            first_value(self@, name@) == match r {
                Some(v) => Some(v@),
                None => None,
            },
    {
        let i = self.find(name);
        if i < self.entries.len() {
            Some(copy_value(&self.entries[i].1))
        } else {
            None
        }
    }

    /// Whether there is a value with a name.
    pub fn formdata_has(&self, name: &str) -> (r: bool)
        ensures
            r == (first_value(self@, name@) is Some),
    {
        self.find(name) < self.entries.len()
    }

    /// All values with a name, in order.
    pub fn formdata_get_all(&self, name: &str) -> (r: Vec<FormDataValue>)
        ensures
            value_views(r@) == values_of(self@.filter(named(name@))),
    {
        let ghost t = self@;
        let ghost keep = named(name@);
        let mut out: Vec<FormDataValue> = Vec::new();
        let mut i: usize = 0;
        proof {
            reveal(Seq::filter);
            assert(value_views(out@) =~= values_of(t.take(0).filter(keep)));
        }
        while i < self.entries.len()
            invariant
                i <= self.entries@.len(),
                t == self@,
                keep == named(name@),
                value_views(out@) == values_of(t.take(i as int).filter(keep)),
            decreases self.entries@.len() - i,
        {
            let ghost prev = out@;
            let ghost done = t.take(i as int).filter(keep);
            proof {
                reveal(Seq::filter);
                assert(t.take(i + 1).drop_last() =~= t.take(i as int));
                assert(t.take(i + 1).last() == (
                    self.entries@[i as int].0@,
                    self.entries@[i as int].1@,
                ));
            }
            if text::same(&self.entries[i].0, name) {
                out.push(copy_value(&self.entries[i].1));
                proof {
                    assert(value_views(out@) =~= value_views(prev).push(t[i as int].1));
                    assert(values_of(done.push(t[i as int])) =~= values_of(done).push(
                        t[i as int].1,
                    ));
                }
            }
            i = i + 1;
        }
        proof {
            assert(t.take(t.len() as int) =~= t);
        }
        out
    }

    /// A copy of all entries, in order.
    pub fn formdata_entries(&self) -> (r: Vec<(String, FormDataValue)>)
        ensures
            entries_view(r@) == self@,
    {
        let ghost t = self@;
        let mut out: Vec<(String, FormDataValue)> = Vec::new();
        let mut i: usize = 0;
        proof {
            assert(entries_view(out@) =~= t.take(0));
        }
        while i < self.entries.len()
            invariant
                i <= self.entries@.len(),
                t == self@,
                entries_view(out@) == t.take(i as int),
            decreases self.entries@.len() - i,
        {
            let ghost prev = out@;
            out.push((text::copy(&self.entries[i].0), copy_value(&self.entries[i].1)));
            proof {
                assert(entries_view(out@) =~= entries_view(prev).push(t[i as int]));
                assert(t.take(i + 1) =~= t.take(i as int).push(t[i as int]));
            }
            i = i + 1;
        }
        proof {
            assert(t.take(t.len() as int) =~= t);
        }
        out
    }

    /// Adds the names and values of a form's controls, without those that have no name.
    pub fn seed_from_form(&mut self, controls: &Vec<(String, String)>)
        ensures
            final(self)@ == old(self)@ + seeds(text::pair_texts(controls@)),
    {
        let ghost t = text::pair_texts(controls@);
        let ghost before = self@;
        let mut i: usize = 0;
        proof {
            assert(self@ =~= before + seeds(t.take(0)));
        }
        while i < controls.len()
            invariant
                i <= controls@.len(),
                t == text::pair_texts(controls@),
                self@ == before + seeds(t.take(i as int)),
            decreases controls@.len() - i,
        {
            proof {
                assert(t.take(i + 1).drop_last() =~= t.take(i as int));
                assert(t.take(i + 1).last() == (controls@[i as int].0@, controls@[i as int].1@));
            }
            if !controls[i].0.as_str().is_empty() {
                let ghost done = seeds(t.take(i as int));
                let name = text::copy(&controls[i].0);
                let value = text::copy(&controls[i].1);
                self.formdata_append(name, FormDataValue::String(value));
                proof {
                    assert(self@ =~= before + seeds(t.take(i + 1)));
                }
            }
            i = i + 1;
        }
        proof {
            assert(t.take(t.len() as int) =~= t);
        }
    }

    /// Adds the names and values of the controls below a form, in the order of the document and
    /// without those that have no name.
    pub fn seed_from_element(&mut self, dom: &Dom, form: NodeId)
        requires
            tree::wf(dom@),
            tree::has(dom@, form),
        ensures
            final(self)@ == old(self)@ + seeds(
                forms::submitted(dom@, forms::controls_in_order(dom@, form)),
            ),
    {
        let controls = forms::named_values(dom, form);
        self.seed_from_form(&controls);
    }
}

/// The entries that the names and values of controls make.
pub open spec fn seeds(v: Seq<(Seq<char>, Seq<char>)>) -> Seq<(Seq<char>, ValueView)>
    decreases v.len(),
{
    if v.len() == 0 {
        Seq::empty()
    } else if v.last().0.len() == 0 {
        seeds(v.drop_last())
    } else {
        seeds(v.drop_last()).push((v.last().0, ValueView::String(v.last().1)))
    }
}

/// The value that a blob makes: its name is the one given, or else its own, or else `blob`.
pub open spec fn blob_value(
    b: BlobView,
    filename: Option<Seq<char>>,
    own_name: Option<Seq<char>>,
) -> ValueView {
    ValueView::Blob {
        bytes: b.bytes,
        filename: match filename {
            Some(f) => f,
            None => match own_name {
                Some(n) => n,
                None => "blob"@,
            },
        },
        mime: if b.mime.len() == 0 {
            "application/octet-stream"@
        } else {
            b.mime
        },
    }
}

/// The value that a script hands in: a blob where it is one that is there, or else the text
/// that it reads as.
pub fn to_form_value(
    blobs: &Registry<BlobEntry>,
    blob: Option<u32>,
    words: &str,
    filename: Option<String>,
    own_name: Option<String>,
) -> (r: FormDataValue)
    ensures
        r@ == (if blob is Some && registry::views(blobs@).found(blob->0) is Some {
            blob_value(
                registry::views(blobs@).found(blob->0)->0,
                text::opt_text(filename),
                text::opt_text(own_name),
            )
        } else {
            ValueView::String(words@)
        }),
{
    let entry = match blob {
        Some(id) => file::read_blob_entry(blobs, id),
        None => None,
    };
    match entry {
        Some(e) => {
            let mime = if e.mime.as_str().is_empty() {
                text::copy("application/octet-stream")
            } else {
                e.mime
            };
            let name = match filename {
                Some(f) => f,
                None => match own_name {
                    Some(n) => n,
                    None => text::copy("blob"),
                },
            };
            FormDataValue::Blob { bytes: e.bytes, filename: name, mime }
        },
        None => FormDataValue::String(text::copy(words)),
    }
}

/// The line that parts the values of a body, made from a time stamp.
pub open spec fn boundary_of(stamp: u128) -> Seq<char> {
    "----daboss-formdata-"@ + number::hexadecimal(stamp as nat)
}

/// The head of a value in a body.
pub open spec fn part_head(name: Seq<char>, v: ValueView) -> Seq<char> {
    match v {
        ValueView::String(_) => "Content-Disposition: form-data; name=\""@ + name
            + "\"\r\n\r\n"@,
        ValueView::Blob { filename, mime, .. } => "Content-Disposition: form-data; name=\""@ + name
            + "\"; filename=\""@ + filename + "\"\r\nContent-Type: "@ + mime + "\r\n\r\n"@,
    }
}

/// The bytes of a value in a body.
pub open spec fn part_content(v: ValueView) -> Seq<u8> {
    match v {
        ValueView::String(s) => encode_utf8(s),
        ValueView::Blob { bytes, .. } => bytes,
    }
}

/// One value in a body: the parting line, its head, its bytes and the end of the line.
pub open spec fn part_of(boundary: Seq<char>, p: (Seq<char>, ValueView)) -> Seq<u8> {
    encode_utf8("--"@ + boundary + "\r\n"@ + part_head(p.0, p.1)) + part_content(p.1) + encode_utf8(
        "\r\n"@,
    )
}

/// The values in a body, one after the other.
pub open spec fn parts_of(boundary: Seq<char>, v: Seq<(Seq<char>, ValueView)>) -> Seq<u8>
    decreases v.len(),
{
    if v.len() == 0 {
        Seq::empty()
    } else {
        parts_of(boundary, v.drop_last()) + part_of(boundary, v.last())
    }
}

/// The body of form data: its values and the closing line.
pub open spec fn body_of(boundary: Seq<char>, v: Seq<(Seq<char>, ValueView)>) -> Seq<u8> {
    parts_of(boundary, v) + encode_utf8("--"@ + boundary + "--\r\n"@)
}

fn append_chars(out: &mut Vec<u8>, cs: &Vec<char>)
    ensures
        final(out)@ == old(out)@ + encode_utf8(cs@),
{
    let s = text::to_text(cs);
    bytes::append_bytes(out, s.as_str().as_bytes());
}

/// Appends one value to a body.
pub fn append_part(out: &mut Vec<u8>, boundary: &str, name: &str, value: &FormDataValue)
    ensures
        final(out)@ == old(out)@ + part_of(boundary@, (name@, value@)),
{
    let ghost before = out@;
    let mut head = text::to_chars("--");
    text::push_text(&mut head, boundary);
    text::push_text(&mut head, "\r\n");
    let ghost line = head@;
    text::push_text(&mut head, "Content-Disposition: form-data; name=\"");
    text::push_text(&mut head, name);
    match value {
        FormDataValue::String(_) => {
            text::push_text(&mut head, "\"\r\n\r\n");
        },
        FormDataValue::Blob { filename, mime, .. } => {
            text::push_text(&mut head, "\"; filename=\"");
            text::push_text(&mut head, filename);
            text::push_text(&mut head, "\"\r\nContent-Type: ");
            text::push_text(&mut head, mime);
            text::push_text(&mut head, "\r\n\r\n");
        },
    }
    proof {
        assert(head@ =~= "--"@ + boundary@ + "\r\n"@ + part_head(name@, value@));
    }
    append_chars(out, &head);
    match value {
        FormDataValue::String(s) => {
            bytes::append_bytes(out, s.as_str().as_bytes());
        },
        FormDataValue::Blob { bytes, .. } => {
            bytes::append_bytes(out, bytes);
        },
    }
    bytes::append_bytes(out, "\r\n".as_bytes());
    proof {
        assert(out@ =~= before + part_of(boundary@, (name@, value@)));
    }
}

/// The body of form data and its type, with a parting line made from a time stamp. Nothing
/// keeps the values from holding the parting line themselves.
pub fn serialise_formdata(state: &FormDataState, stamp: u128) -> (r: (Vec<u8>, String))
    ensures
        r.0@ == body_of(boundary_of(stamp), state@),
        r.1@ == "multipart/form-data; boundary="@ + boundary_of(stamp),
{
    let mut mark = text::to_chars("----daboss-formdata-");
    let hex = number::write_digits(stamp, 16);
    text::push_chars(&mut mark, &hex);
    let boundary = text::to_text(&mark);
    let ghost t = state@;
    let mut out: Vec<u8> = Vec::new();
    let mut i: usize = 0;
    proof {
        assert(out@ =~= parts_of(boundary@, t.take(0)));
    }
    while i < state.entries.len()
        invariant
            i <= state.entries@.len(),
            t == state@,
            out@ == parts_of(boundary@, t.take(i as int)),
        decreases state.entries@.len() - i,
    {
        proof {
            assert(t.take(i + 1).drop_last() =~= t.take(i as int));
            assert(t.take(i + 1).last() == (
                state.entries@[i as int].0@,
                state.entries@[i as int].1@,
            ));
        }
        append_part(&mut out, &boundary, &state.entries[i].0, &state.entries[i].1);
        i = i + 1;
    }
    proof {
        assert(t.take(t.len() as int) =~= t);
    }
    let mut tail = text::to_chars("--");
    text::push_text(&mut tail, &boundary);
    text::push_text(&mut tail, "--\r\n");
    append_chars(&mut out, &tail);
    let mut ty = text::to_chars("multipart/form-data; boundary=");
    text::push_text(&mut ty, &boundary);
    (out, text::to_text(&ty))
}

proof fn lemma_first_of_other(v: Seq<(Seq<char>, ValueView)>, name: Seq<char>)
    requires
        forall|i: int| 0 <= i < v.len() ==> (#[trigger] v[i]).0 != name,
    ensures
        pairs::position(v, named(name)) == v.len(),
        v.filter(named(name)).len() == 0,
    decreases v.len(),
{
    pairs::lemma_position(v, named(name), v.len() as int);
    reveal(Seq::filter);
    if v.len() > 0 {
        lemma_first_of_other(v.drop_last(), name);
    }
}

/// A value that was set is the only one with its name, and a name that was dropped has none.
pub proof fn set_value_is_alone(
    v: Seq<(Seq<char>, ValueView)>,
    name: Seq<char>,
    value: ValueView,
)
    ensures
        first_value(v.filter(not_named(name)), name) is None,
        first_value(v.filter(not_named(name)).push((name, value)), name) == Some(value),
        v.filter(not_named(name)).push((name, value)).filter(named(name)) == seq![(name, value)],
{
    let rest = v.filter(not_named(name));
    assert forall|i: int| 0 <= i < rest.len() implies (#[trigger] rest[i]).0 != name by {
        v.lemma_filter_pred(not_named(name), i);
    }
    lemma_first_of_other(rest, name);
    let w = rest.push((name, value));
    assert forall|j: int| 0 <= j < rest.len() implies !named(name)(#[trigger] w[j]) by {
        assert(w[j] == rest[j]);
    }
    pairs::lemma_position(w, named(name), rest.len() as int);
    reveal(Seq::filter);
    assert(w.drop_last() =~= rest);
    assert(rest.filter(named(name)) =~= Seq::empty());
    assert(w.filter(named(name)) =~= seq![(name, value)]);
}

/// A value that was added comes behind all others with its name.
pub proof fn appended_value_is_last(
    v: Seq<(Seq<char>, ValueView)>,
    name: Seq<char>,
    value: ValueView,
)
    ensures
        v.push((name, value)).filter(named(name)) == v.filter(named(name)).push((name, value)),
{
    reveal(Seq::filter);
    assert(v.push((name, value)).drop_last() =~= v);
}

/// The first value with a name is the first of all with it, and there is none where there are none.
/// What is left once a name was dropped are all entries with other names.
pub proof fn values_are_found_by_name(
    v: Seq<(Seq<char>, ValueView)>,
    name: Seq<char>,
    p: (Seq<char>, ValueView),
)
    ensures
        v.filter(named(name)).len() == 0 <==> first_value(v, name) is None,
        v.filter(named(name)).len() > 0 ==> first_value(v, name) == Some(v.filter(named(name))[0].1),
        v.filter(named(name)).contains(p) <==> v.contains(p) && p.0 == name,
        v.filter(not_named(name)).contains(p) <==> v.contains(p) && p.0 != name,
        v.filter(named(name)).len() + v.filter(not_named(name)).len() == v.len(),
        values_of(v).len() == v.len(),
        forall|i: int| 0 <= i < v.len() ==> values_of(v)[i] == (#[trigger] v[i]).1,
    decreases v.len(),
{
    let f = named(name);
    let g = not_named(name);
    reveal(Seq::filter);
    if v.len() > 0 {
        let w = v.drop_last();
        values_are_found_by_name(w, name, p);
        pairs::lemma_position_drop_last(v, f);
        pairs::lemma_position_holds(v, f);
        pairs::lemma_position_holds(w, f);
    }
    if v.filter(f).contains(p) {
        v.lemma_filter_pred(f, v.filter(f).index_of(p));
        v.lemma_filter_contains_rev(f, p);
    }
    if v.contains(p) && p.0 == name {
        v.lemma_filter_contains(f, v.index_of(p));
    }
    if v.filter(g).contains(p) {
        v.lemma_filter_pred(g, v.filter(g).index_of(p));
        v.lemma_filter_contains_rev(g, p);
    }
    if v.contains(p) && p.0 != name {
        v.lemma_filter_contains(g, v.index_of(p));
    }
}

/// Form data of a form hold its controls that have a name, in order and with their values.
pub proof fn named_controls_are_entered(
    v: Seq<(Seq<char>, Seq<char>)>,
    name: Seq<char>,
    value: Seq<char>,
)
    ensures
        name.len() > 0 ==> seeds(v.push((name, value))) == seeds(v).push(
            (name, ValueView::String(value)),
        ),
        name.len() == 0 ==> seeds(v.push((name, value))) == seeds(v),
        v.len() == 0 ==> seeds(v).len() == 0,
        (forall|i: int| 0 <= i < v.len() ==> (#[trigger] v[i]).0.len() > 0) ==> seeds(v).len()
            == v.len(),
    decreases v.len(),
{
    assert(v.push((name, value)).drop_last() =~= v);
    if v.len() > 0 {
        let w = v.drop_last();
        assert(w.push((v.last().0, v.last().1)) =~= v);
        named_controls_are_entered(w, v.last().0, v.last().1);
        if forall|i: int| 0 <= i < v.len() ==> (#[trigger] v[i]).0.len() > 0 {
            assert(forall|i: int| 0 <= i < w.len() ==> #[trigger] w[i] == v[i]);
            assert(v[v.len() - 1].0.len() > 0);
        }
    }
}

/// A blob is entered with its bytes. The name that was given comes before its own.
pub proof fn blobs_are_entered_whole(
    b: BlobView,
    given: Seq<char>,
    own: Seq<char>,
    own_name: Option<Seq<char>>,
)
    ensures
        blob_value(b, Some(given), own_name) matches ValueView::Blob {
            bytes,
            filename,
            ..
        } && bytes == b.bytes && filename == given,
        blob_value(b, None, Some(own)) matches ValueView::Blob { bytes, filename, .. } && bytes
            == b.bytes && filename == own,
        blob_value(b, None, None) matches ValueView::Blob { bytes, filename, .. } && bytes
            == b.bytes && filename == "blob"@,
        blob_value(b, None, own_name) matches ValueView::Blob { mime, .. } && mime.len() > 0 && (
        b.mime.len() > 0 ==> mime == b.mime),
{
    reveal_strlit("application/octet-stream");
}

/// The body of form data is its values one behind the other and the closing line. Each value is
/// parted from the one before, tells its name, and holds its bytes as they are.
pub proof fn bodies_hold_every_value(
    boundary: Seq<char>,
    a: Seq<(Seq<char>, ValueView)>,
    b: Seq<(Seq<char>, ValueView)>,
    name: Seq<char>,
    s: Seq<char>,
    content: Seq<u8>,
    filename: Seq<char>,
    mime: Seq<char>,
)
    ensures
        parts_of(boundary, a + b) == parts_of(boundary, a) + parts_of(boundary, b),
        parts_of(boundary, seq![(name, ValueView::String(s))]) == encode_utf8(
            "--"@ + boundary + "\r\n"@ + ("Content-Disposition: form-data; name=\""@ + name
                + "\"\r\n\r\n"@),
        ) + encode_utf8(s) + encode_utf8("\r\n"@),
        parts_of(
            boundary,
            seq![(name, ValueView::Blob { bytes: content, filename, mime })],
        ) == encode_utf8(
            "--"@ + boundary + "\r\n"@ + ("Content-Disposition: form-data; name=\""@ + name
                + "\"; filename=\""@ + filename + "\"\r\nContent-Type: "@ + mime
                + "\r\n\r\n"@),
        ) + content + encode_utf8("\r\n"@),
        body_of(boundary, a + b) == parts_of(boundary, a) + body_of(boundary, b),
        body_of(boundary, Seq::empty()) == encode_utf8("--"@ + boundary + "--\r\n"@),
    decreases b.len(),
{
    reveal_with_fuel(parts_of, 2);
    let e = Seq::<(Seq<char>, ValueView)>::empty();
    let p = seq![(name, ValueView::String(s))];
    let q = seq![(name, ValueView::Blob { bytes: content, filename, mime })];
    assert(p.drop_last() =~= e);
    assert(q.drop_last() =~= e);
    assert(parts_of(boundary, p) =~= part_of(boundary, p[0]));
    assert(parts_of(boundary, q) =~= part_of(boundary, q[0]));
    if b.len() == 0 {
        assert(a + b =~= a);
        assert(parts_of(boundary, a) + parts_of(boundary, b) =~= parts_of(boundary, a));
    } else {
        bodies_hold_every_value(
            boundary,
            a,
            b.drop_last(),
            name,
            s,
            content,
            filename,
            mime,
        );
        assert((a + b).drop_last() =~= a + b.drop_last());
        assert((a + b).last() == b.last());
        assert(parts_of(boundary, a + b) =~= parts_of(boundary, a) + parts_of(boundary, b));
    }
    assert(body_of(boundary, a + b) =~= parts_of(boundary, a) + body_of(boundary, b));
    assert(body_of(boundary, e) =~= encode_utf8("--"@ + boundary + "--\r\n"@));
}

/// The parting lines of different times differ.
pub proof fn boundaries_differ(a: u128, b: u128)
    requires
        a != b,
    ensures
        boundary_of(a) != boundary_of(b),
{
    let x = number::hexadecimal(a as nat);
    let y = number::hexadecimal(b as nat);
    let p = "----daboss-formdata-"@;
    number::number_text_round_trip(a as nat, 16, u128::MAX as nat);
    number::number_text_round_trip(b as nat, 16, u128::MAX as nat);
    if boundary_of(a) == boundary_of(b) {
        assert((p + x).skip(p.len() as int) =~= x);
        assert((p + y).skip(p.len() as int) =~= y);
    }
}

} // verus!
