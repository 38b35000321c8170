//! Private files of pages: where they lie, which names they may have, and what opening, listing,
//! writing and removing them comes to. A path is a list of names, from the outermost on.
use crate::address::UrlParts;
use crate::number;
use crate::registry;
use crate::registry::{Registry, RegistryView};
use crate::sort;
use crate::text;
use crate::text::CharClass;
use vstd::prelude::*;
use vstd::string::*;

verus! {

broadcast use crate::registry::group_registry;

/// Whether a character stays in the name of a directory.
pub open spec fn is_kept(c: char) -> bool {
    'a' <= c <= 'z' || 'A' <= c <= 'Z' || '0' <= c <= '9' || c == '-' || c == '_' || c == '.'
}

/// The character that stands for one in the name of a directory.
pub open spec fn kept(c: char) -> char {
    if is_kept(c) {
        c
    } else {
        '_'
    }
}

/// The name of a directory for a text: characters that do not stay become underscores, and dots
/// at its ends go.
pub open spec fn sanitised(s: Seq<char>) -> Seq<char> {
    text::trim_class(s.map_values(|c: char| kept(c)), CharClass::Is('.'))
}

/// The name of a directory for a text.
pub fn sanitise_path_component(s: &str) -> (r: String)
    ensures
        r@ == sanitised(s@),
{
    let cs = text::to_chars(s);
    let ghost goal = s@.map_values(|c: char| kept(c));
    let mut out: Vec<char> = Vec::new();
    let mut i: usize = 0;
    while i < cs.len()
        invariant
            i <= cs@.len(),
            cs@ == s@,
            goal == s@.map_values(|c: char| kept(c)),
            out@ == goal.take(i as int),
        decreases cs@.len() - i,
    {
        let c = cs[i];
        if ('a' <= c && c <= 'z') || ('A' <= c && c <= 'Z') || ('0' <= c && c <= '9') || c == '-'
            || c == '_' || c == '.' {
            out.push(c);
        } else {
            out.push('_');
        }
        proof {
            assert(goal.take(i + 1) =~= goal.take(i as int).push(goal[i as int]));
        }
        i = i + 1;
    }
    proof {
        assert(goal.take(goal.len() as int) =~= goal);
    }
    let t = text::trim_ends(&out, CharClass::Is('.'));
    text::to_text(&t)
}

/// The name of a directory leads nowhere else: it holds only characters that stay, none of which
/// parts names, and neither begins nor ends with a dot.
pub proof fn sanitised_is_safe(s: Seq<char>)
    ensures
        forall|i: int| 0 <= i < sanitised(s).len() ==> is_kept(#[trigger] sanitised(s)[i]),
        !sanitised(s).contains('/'),
        !sanitised(s).contains('\\'),
        sanitised(s).len() > 0 ==> sanitised(s)[0] != '.' && sanitised(s).last() != '.',
{
    let m = s.map_values(|c: char| kept(c));
    let k = CharClass::Is('.');
    let (a, b) = text::lemma_trim_is_part(m, k);
    text::lemma_trim_ends(m, k);
    assert forall|i: int| 0 <= i < sanitised(s).len() implies is_kept(#[trigger] sanitised(s)[i]) by {
        assert(sanitised(s)[i] == m[a + i]);
    }
}

/// A host name: only characters that stay, and no dot at an end.
pub open spec fn is_plain_host(s: Seq<char>) -> bool {
    &&& forall|i: int| 0 <= i < s.len() ==> is_kept(#[trigger] s[i])
    &&& s.len() > 0 ==> s[0] != '.' && s.last() != '.'
}

proof fn lemma_plain_stays(s: Seq<char>)
    requires
        is_plain_host(s),
    ensures
        sanitised(s) == s,
{
    assert(s.map_values(|c: char| kept(c)) =~= s);
    text::lemma_trimmed(s, CharClass::Is('.'));
}

/// The name of a directory is its own name of a directory: made twice it is the same.
pub proof fn sanitising_twice_is_once(s: Seq<char>)
    ensures
        sanitised(sanitised(s)) == sanitised(s),
{
    sanitised_is_safe(s);
    lemma_plain_stays(sanitised(s));
}

/// The host of a page, where its address has one.
pub open spec fn host_of(u: Option<UrlParts>) -> Option<Seq<char>> {
    match u {
        Some(p) => text::opt_text(p.host),
        None => None,
    }
}

/// The directory of a page's own files: its host's.
pub open spec fn origin_name(inner: Option<Seq<char>>) -> Seq<char> {
    sanitised(
        match inner {
            Some(h) => h,
            None => "default"@,
        },
    )
}

/// The directory of a page's files, which also depends on the page that it is shown in: the
/// host's own where the two are the same.
pub open spec fn partition_name(top: Option<Seq<char>>, inner: Option<Seq<char>>) -> Seq<char> {
    let i = match inner {
        Some(h) => h,
        None => "default"@,
    };
    let t = match top {
        Some(h) => h,
        None => i,
    };
    if t == i {
        sanitised(i)
    } else {
        sanitised(t + "__"@ + i)
    }
}

fn copy_host(u: &Option<UrlParts>) -> (r: Option<String>)
    ensures
        text::opt_text(r) == host_of(*u),
{
    match u {
        Some(p) => crate::address::copy_option(&p.host),
        None => None,
    }
}

/// The directory of a page's own files.
pub fn current_origin_host(inner: &Option<UrlParts>) -> (r: String)
    ensures
        r@ == origin_name(host_of(*inner)),
{
    let host = match copy_host(inner) {
        Some(h) => h,
        None => text::copy("default"),
    };
    sanitise_path_component(&host)
}

/// The directory of the files of a page that is shown in another.
pub fn partitioned_origin_host(top: &Option<UrlParts>, inner: &Option<UrlParts>) -> (r: String)
    ensures
        r@ == partition_name(host_of(*top), host_of(*inner)),
{
    let i = match copy_host(inner) {
        Some(h) => h,
        None => text::copy("default"),
    };
    let t = match copy_host(top) {
        Some(h) => h,
        None => text::copy(&i),
    };
    if text::same(&t, &i) {
        sanitise_path_component(&i)
    } else {
        let mut both = text::to_chars(&t);
        text::push_text(&mut both, "__");
        text::push_text(&mut both, &i);
        let name = text::to_text(&both);
        sanitise_path_component(&name)
    }
}

/// A page shown in pages of two hosts has two directories, and two hosts have two directories.
pub proof fn partitions_are_apart(a: Seq<char>, b: Seq<char>, inner: Seq<char>)
    requires
        a != b,
        is_plain_host(a),
        is_plain_host(b),
        is_plain_host(inner),
        a.len() > 0,
        b.len() > 0,
        inner.len() > 0,
    ensures
        partition_name(Some(a), Some(inner)) != partition_name(Some(b), Some(inner)),
        partition_name(Some(a), Some(a)) != partition_name(Some(b), Some(b)),
        partition_name(Some(inner), Some(inner)) == inner,
{
    reveal_strlit("__");
    lemma_plain_stays(inner);
    lemma_plain_stays(a);
    lemma_plain_stays(b);
    let x = a + "__"@ + inner;
    let y = b + "__"@ + inner;
    assert(is_plain_host(x)) by {
        assert(x.last() == inner.last());
        assert(x[0] == a[0]);
    }
    assert(is_plain_host(y)) by {
        assert(y.last() == inner.last());
        assert(y[0] == b[0]);
    }
    lemma_plain_stays(x);
    lemma_plain_stays(y);
    if x == y {
        assert(x.len() == a.len() + 2 + inner.len());
        assert(y.len() == b.len() + 2 + inner.len());
        assert(a =~= x.take(a.len() as int));
        assert(b =~= y.take(b.len() as int));
    }
}

/// The kinds of systems that keep a user's data in different places.
#[derive(Clone, Copy, PartialEq, Eq, Structural, Debug)]
pub enum Platform {
    MacOs,
    Windows,
    LinuxOrAndroid,
    Other,
}

/// The directory of a user's data, from what the system says of itself.
pub open spec fn data_dir(
    platform: Platform,
    xdg: Option<Seq<char>>,
    home: Option<Seq<char>>,
    local_app_data: Option<Seq<char>>,
    temp: Seq<char>,
) -> Seq<Seq<char>> {
    if xdg is Some && xdg->0.len() > 0 {
        seq![xdg->0]
    } else if platform == Platform::MacOs && home is Some {
        seq![home->0, "Library"@, "Application Support"@]
    } else if platform == Platform::Windows && local_app_data is Some {
        seq![local_app_data->0]
    } else if platform == Platform::LinuxOrAndroid && home is Some {
        seq![home->0, ".local"@, "share"@]
    } else {
        seq![temp]
    }
}

fn names(a: &str, b: &str, c: &str) -> (r: Vec<String>)
    ensures
        text::texts(r@) == seq![a@, b@, c@],
{
    let mut out: Vec<String> = Vec::new();
    out.push(text::copy(a));
    out.push(text::copy(b));
    out.push(text::copy(c));
    proof {
        assert(text::texts(out@) =~= seq![a@, b@, c@]);
    }
    out
}

fn name_alone(a: &str) -> (r: Vec<String>)
    ensures
        text::texts(r@) == seq![a@],
{
    let mut out: Vec<String> = Vec::new();
    out.push(text::copy(a));
    proof {
        assert(text::texts(out@) =~= seq![a@]);
    }
    out
}

/// The directory of a user's data.
pub fn data_dir_path(
    platform: Platform,
    xdg: &Option<String>,
    home: &Option<String>,
    local_app_data: &Option<String>,
    temp: &str,
) -> (r: Vec<String>)
    ensures
        text::texts(r@) == data_dir(
            platform,
            text::opt_text(*xdg),
            text::opt_text(*home),
            text::opt_text(*local_app_data),
            temp@,
        ),
{
    match xdg {
        Some(p) => if !p.as_str().is_empty() {
            return name_alone(p);
        },
        None => {},
    }
    match platform {
        Platform::MacOs => match home {
            Some(h) => names(h, "Library", "Application Support"),
            None => name_alone(temp),
        },
        Platform::Windows => match local_app_data {
            Some(p) => name_alone(p),
            None => name_alone(temp),
        },
        Platform::LinuxOrAndroid => match home {
            Some(h) => names(h, ".local", "share"),
            None => name_alone(temp),
        },
        Platform::Other => name_alone(temp),
    }
}

fn copy_path(p: &Vec<String>) -> (r: Vec<String>)
    ensures
        text::texts(r@) == text::texts(p@),
{
    let ghost t = text::texts(p@);
    let mut out: Vec<String> = Vec::new();
    let mut i: usize = 0;
    proof {
        assert(text::texts(out@) =~= t.take(0));
    }
    while i < p.len()
        invariant
            i <= p@.len(),
            t == text::texts(p@),
            text::texts(out@) == t.take(i as int),
        decreases p@.len() - i,
    {
        let ghost prev = out@;
        out.push(text::copy(&p[i]));
        proof {
            assert(text::texts(out@) =~= text::texts(prev).push(t[i as int]));
            assert(t.take(i + 1) =~= t.take(i as int).push(t[i as int]));
        }
        i = i + 1;
    }
    proof {
        assert(t.take(t.len() as int) =~= t);
    }
    out
}

fn join(p: &Vec<String>, name: &str) -> (r: Vec<String>)
    ensures
        text::texts(r@) == text::texts(p@).push(name@),
{
    let mut out = copy_path(p);
    let ghost prev = out@;
    out.push(text::copy(name));
    proof {
        assert(text::texts(out@) =~= text::texts(prev).push(name@));
    }
    out
}

/// The root directory of a page's files of a kind.
pub fn origin_root(data: &Vec<String>, kind: &str, host: &str) -> (r: Vec<String>)
    ensures
        text::texts(r@) == text::texts(data@).push(kind@).push(host@),
{
    let p = join(data, kind);
    join(&p, host)
}

/// A directory.
pub struct DirHandle {
    pub path: Vec<String>,
}

impl View for DirHandle {
    type V = Seq<Seq<char>>;

    open spec fn view(&self) -> Seq<Seq<char>> {
        text::texts(self.path@)
    }
}

/// A file.
pub struct FileHandle {
    pub path: Vec<String>,
}

impl View for FileHandle {
    type V = Seq<Seq<char>>;

    open spec fn view(&self) -> Seq<Seq<char>> {
        text::texts(self.path@)
    }
}

/// A file that is being written: where it belongs, and where it is written meanwhile. One
/// without such a place is written where it belongs.
pub struct WriterState {
    pub target_path: Vec<String>,
    pub temp_path: Option<Vec<String>>,
}

/// A file that is being written, over plain values.
pub ghost struct WriterView {
    pub target: Seq<Seq<char>>,
    pub temp: Option<Seq<Seq<char>>>,
}

impl View for WriterState {
    type V = WriterView;

    open spec fn view(&self) -> WriterView {
        WriterView {
            target: text::texts(self.target_path@),
            temp: match self.temp_path {
                Some(p) => Some(text::texts(p@)),
                None => None,
            },
        }
    }
}

/// Directories, files and writers, whose numbers come from one count.
pub struct Handles {
    pub dirs: Registry<DirHandle>,
    pub files: Registry<FileHandle>,
    pub writers: Registry<WriterState>,
    pub next: u32,
}

/// Directories, files and writers over plain values.
pub ghost struct HandlesView {
    pub dirs: RegistryView<Seq<Seq<char>>>,
    pub files: RegistryView<Seq<Seq<char>>>,
    pub writers: RegistryView<WriterView>,
    pub next: u32,
}

impl View for Handles {
    type V = HandlesView;

    open spec fn view(&self) -> HandlesView {
        HandlesView {
            dirs: registry::views(self.dirs@),
            files: registry::views(self.files@),
            writers: registry::views(self.writers@),
            next: self.next,
        }
    }
}

impl Handles {
    /// Nothing is open.
    pub fn new() -> (r: Self)
        ensures
            r@.dirs.items == Map::<u32, Seq<Seq<char>>>::empty(),
            r@.files.items == Map::<u32, Seq<Seq<char>>>::empty(),
            r@.writers.items == Map::<u32, WriterView>::empty(),
            r@.next == 1,
    {
        let r = Handles {
            dirs: Registry::new(),
            files: Registry::new(),
            writers: Registry::new(),
            next: 1,
        };
        proof {
            assert(r@.dirs.items =~= Map::empty());
            assert(r@.files.items =~= Map::empty());
            assert(r@.writers.items =~= Map::empty());
        }
        r
    }

    /// Opens a directory, and gives its number.
    pub fn register_dir(&mut self, path: Vec<String>) -> (r: u32)
        ensures
            r == old(self)@.next,
            final(self)@ == (HandlesView {
                dirs: old(self)@.dirs.with(r, text::texts(path@)),
                next: registry::next_after(r),
                ..old(self)@
            }),
    {
        let id = registry::next_id(&mut self.next);
        self.dirs.put(id, DirHandle { path });
        id
    }

    /// Opens a file, and gives its number.
    pub fn register_file(&mut self, path: Vec<String>) -> (r: u32)
        ensures
            r == old(self)@.next,
            final(self)@ == (HandlesView {
                files: old(self)@.files.with(r, text::texts(path@)),
                next: registry::next_after(r),
                ..old(self)@
            }),
    {
        let id = registry::next_id(&mut self.next);
        self.files.put(id, FileHandle { path });
        id
    }

    /// The path of a directory.
    pub fn dir_path(&self, id: u32) -> (r: Option<Vec<String>>)
        ensures
            match self@.dirs.found(id) {
                Some(p) => r matches Some(v) && text::texts(v@) == p,
                None => r is None,
            },
    {
        match self.dirs.get(id) {
            Some(d) => Some(copy_path(&d.path)),
            None => None,
        }
    }

    /// The path of a file.
    pub fn file_path(&self, id: u32) -> (r: Option<Vec<String>>)
        ensures
            match self@.files.found(id) {
                Some(p) => r matches Some(v) && text::texts(v@) == p,
                None => r is None,
            },
    {
        match self.files.get(id) {
            Some(d) => Some(copy_path(&d.path)),
            None => None,
        }
    }
}

/// Whether a name begins with the letter of a drive.
pub open spec fn names_drive(name: Seq<char>) -> bool {
    name.len() >= 2 && ('a' <= name[0] <= 'z' || 'A' <= name[0] <= 'Z') && name[1] == ':'
}

/// Whether a name is that of something in a directory: it leads neither further down nor up, nor to
/// another drive.
pub open spec fn is_child_name(name: Seq<char>) -> bool {
    &&& name.len() > 0
    &&& !names_drive(name)
    &&& !name.contains('/')
    &&& !name.contains('\\')
    &&& name != "."@
    &&& name != ".."@
}

fn holds(cs: &Vec<char>, c: char) -> (r: bool)
    ensures
        r == cs@.contains(c),
{
    match text::split_once(cs, c) {
        Some(_) => true,
        None => false,
    }
}

/// The path of something in a directory, where its name is one.
pub fn safe_child_path(base: &Vec<String>, name: &str) -> (r: Option<Vec<String>>)
    ensures
        if is_child_name(name@) {
            r matches Some(p) && text::texts(p@) == text::texts(base@).push(name@)
        } else {
            r is None
        },
{
    let cs = text::to_chars(name);
    let drive = cs.len() >= 2 && (('a' <= cs[0] && cs[0] <= 'z') || ('A' <= cs[0] && cs[0] <= 'Z'))
        && cs[1] == ':';
    if drive || name.is_empty() || holds(&cs, '/') || holds(&cs, '\\') || text::same(name, ".")
        || text::same(name, "..") {
        return None;
    }
    Some(join(base, name))
}

/// Whether a path lies in a directory.
pub open spec fn lies_in(base: Seq<Seq<char>>, p: Seq<Seq<char>>) -> bool {
    base.len() <= p.len() && p.take(base.len() as int) == base
}

/// What is opened by name lies in the directory it is opened from, and so in all that this one
/// lies in: no name leads out.
pub proof fn children_stay_inside(
    root: Seq<Seq<char>>,
    base: Seq<Seq<char>>,
    name: Seq<char>,
)
    requires
        lies_in(root, base),
    ensures
        lies_in(base, base.push(name)),
        lies_in(root, base.push(name)),
        base.push(name).len() == base.len() + 1,
{
    assert(base.push(name).take(base.len() as int) =~= base);
    assert(base.push(name).take(root.len() as int) =~= base.take(root.len() as int));
}

/// The path of something that a script names in a directory, or why there is none.
pub fn child_of(handles: &Handles, dir: Option<u32>, name: &str) -> (r: Result<
    Vec<String>,
    String,
>)
    ensures
        match dir {
            None => r matches Err(e) && e@ == "invalid dir"@,
            Some(id) => match handles@.dirs.found(id) {
                None => r matches Err(e) && e@ == "invalid dir handle"@,
                Some(base) => if is_child_name(name@) {
                    r matches Ok(p) && text::texts(p@) == base.push(name@)
                } else {
                    r matches Err(e) && e@ == "InvalidName"@
                },
            },
        },
{
    let id = match dir {
        Some(id) => id,
        None => {
            return Err(text::copy("invalid dir"));
        },
    };
    let base = match handles.dir_path(id) {
        Some(p) => p,
        None => {
            return Err(text::copy("invalid dir handle"));
        },
    };
    match safe_child_path(&base, name) {
        Some(p) => Ok(p),
        None => Err(text::copy("InvalidName")),
    }
}

/// How to open something: as it is, or by making it first.
#[derive(Clone, Copy, PartialEq, Eq, Structural, Debug)]
pub enum OpenStep {
    Open,
    Create,
}

/// How to open something, from what is there, or why not. The first of the two tells whether it
/// is there and of the right kind, the second whether it is there and of the other kind.
pub open spec fn open_step(right: bool, other: bool, create: bool, mismatch: Seq<char>) -> Result<
    OpenStep,
    Seq<char>,
> {
    if !right && !create {
        Err("NotFoundError"@)
    } else if right && other {
        Err(mismatch)
    } else if right {
        Ok(OpenStep::Open)
    } else {
        Ok(OpenStep::Create)
    }
}

/// How to open a file, from whether its path is that of a file and that of a directory.
pub fn dir_get_file_handle(is_file: bool, is_dir: bool, create: bool) -> (r: Result<OpenStep, String>)
    ensures
        match open_step(is_file, is_dir, create, "TypeMismatchError: path is a directory"@) {
            Ok(s) => r == Ok::<OpenStep, String>(s),
            Err(e) => r matches Err(m) && m@ == e,
        },
{
    if !is_file && !create {
        Err(text::copy("NotFoundError"))
    } else if is_file && is_dir {
        Err(text::copy("TypeMismatchError: path is a directory"))
    } else if is_file {
        Ok(OpenStep::Open)
    } else {
        Ok(OpenStep::Create)
    }
}

/// How to open a directory, from whether its path is that of a directory and that of a file.
pub fn dir_get_directory_handle(is_dir: bool, is_file: bool, create: bool) -> (r: Result<
    OpenStep,
    String,
>)
    ensures
        match open_step(is_dir, is_file, create, "TypeMismatchError: path is a file"@) {
            Ok(s) => r == Ok::<OpenStep, String>(s),
            Err(e) => r matches Err(m) && m@ == e,
        },
{
    if !is_dir && !create {
        Err(text::copy("NotFoundError"))
    } else if is_dir && is_file {
        Err(text::copy("TypeMismatchError: path is a file"))
    } else if is_dir {
        Ok(OpenStep::Open)
    } else {
        Ok(OpenStep::Create)
    }
}

/// Opens a file or directory once it is there, and gives its number; what could not be made is
/// refused.
pub fn finish_open(handles: &mut Handles, path: Vec<String>, dir: bool, made: bool) -> (r: Result<
    u32,
    String,
>)
    ensures
        if !made {
            (r matches Err(e) && e@ == "InvalidStateError"@) && final(handles)@ == old(handles)@
        } else if dir {
            r == Ok::<u32, String>(old(handles)@.next) && final(handles)@ == (HandlesView {
                dirs: old(handles)@.dirs.with(old(handles)@.next, text::texts(path@)),
                next: registry::next_after(old(handles)@.next),
                ..old(handles)@
            })
        } else {
            r == Ok::<u32, String>(old(handles)@.next) && final(handles)@ == (HandlesView {
                files: old(handles)@.files.with(old(handles)@.next, text::texts(path@)),
                next: registry::next_after(old(handles)@.next),
                ..old(handles)@
            })
        },
{
    if !made {
        Err(text::copy("InvalidStateError"))
    } else if dir {
        Ok(handles.register_dir(path))
    } else {
        Ok(handles.register_file(path))
    }
}

/// How to remove something.
#[derive(Clone, Copy, PartialEq, Eq, Structural, Debug)]
pub enum RemoveStep {
    Tree,
    EmptyDir,
    File,
}

/// How to remove something, from what is there, or why not.
pub open spec fn remove_step(exists: bool, is_dir: bool, recursive: bool) -> Result<
    RemoveStep,
    Seq<char>,
> {
    if !exists {
        Err("NotFoundError"@)
    } else if is_dir && recursive {
        Ok(RemoveStep::Tree)
    } else if is_dir {
        Ok(RemoveStep::EmptyDir)
    } else {
        Ok(RemoveStep::File)
    }
}

/// How to remove something, from what is there, or why not.
pub fn dir_remove_entry(exists: bool, is_dir: bool, recursive: bool) -> (r: Result<
    RemoveStep,
    String,
>)
    ensures
        match remove_step(exists, is_dir, recursive) {
            Ok(s) => r == Ok::<RemoveStep, String>(s),
            Err(e) => r matches Err(m) && m@ == e,
        },
{
    if !exists {
        Err(text::copy("NotFoundError"))
    } else if is_dir {
        if recursive {
            Ok(RemoveStep::Tree)
        } else {
            Ok(RemoveStep::EmptyDir)
        }
    } else {
        Ok(RemoveStep::File)
    }
}

/// What removing something is answered.
pub fn finish_remove(removed: bool) -> (r: Result<(), String>)
    ensures
        removed ==> r is Ok,
        !removed ==> (r matches Err(e) && e@ == "InvalidModificationError"@),
{
    if removed {
        Ok(())
    } else {
        Err(text::copy("InvalidModificationError"))
    }
}

/// What is in a directory, by name, with whether it is a directory.
pub fn list_children(found: Vec<(String, bool)>) -> (r: Vec<(String, bool)>)
    ensures
        sort::names_in_order(sort::flags_view(r@)),
        sort::flags_view(r@).to_multiset() == sort::flags_view(found@).to_multiset(),
{
    sort::sort_flags(found)
}

/// The names that lead from a directory to a path in it.
pub open spec fn way_to(base: Seq<Seq<char>>, target: Seq<Seq<char>>) -> Option<Seq<Seq<char>>> {
    if lies_in(base, target) {
        Some(target.skip(base.len() as int))
    } else {
        None
    }
}

fn strip(base: &Vec<String>, target: &Vec<String>) -> (r: Option<Vec<String>>)
    ensures
        way_to(text::texts(base@), text::texts(target@)) == match r {
            Some(v) => Some(text::texts(v@)),
            None => None,
        },
{
    let ghost b = text::texts(base@);
    let ghost t = text::texts(target@);
    if base.len() > target.len() {
        return None;
    }
    let mut i: usize = 0;
    while i < base.len()
        invariant
            i <= base@.len() <= target@.len(),
            b == text::texts(base@),
            t == text::texts(target@),
            forall|j: int| 0 <= j < i ==> #[trigger] b[j] == t[j],
        decreases base@.len() - i,
    {
        proof {
            assert(b[i as int] == base@[i as int]@);
            assert(t[i as int] == target@[i as int]@);
        }
        if !text::same(&base[i], &target[i]) {
            proof {
                assert(t.take(b.len() as int)[i as int] != b[i as int]);
            }
            return None;
        }
        i = i + 1;
    }
    let mut out: Vec<String> = Vec::new();
    proof {
        assert(t.take(b.len() as int) =~= b);
        assert(text::texts(out@) =~= t.subrange(i as int, i as int));
    }
    while i < target.len()
        invariant
            base@.len() <= i <= target@.len(),
            t == text::texts(target@),
            b == text::texts(base@),
            lies_in(b, t),
            text::texts(out@) == t.subrange(base@.len() as int, i as int),
        decreases target@.len() - i,
    {
        let ghost prev = out@;
        out.push(text::copy(&target[i]));
        proof {
            assert(text::texts(out@) =~= text::texts(prev).push(t[i as int]));
            assert(t.subrange(base@.len() as int, i + 1) =~= t.subrange(
                base@.len() as int,
                i as int,
            ).push(t[i as int]));
        }
        i = i + 1;
    }
    proof {
        assert(t.subrange(b.len() as int, t.len() as int) =~= t.skip(b.len() as int));
    }
    Some(out)
}

/// The names that lead from a directory to another directory or a file, where it lies in it.
pub fn dir_resolve(
    handles: &Handles,
    dir: Option<u32>,
    target_dir: Option<u32>,
    target_file: Option<u32>,
) -> (r: Option<Vec<String>>)
    ensures
        ({
            let base = match dir {
                Some(id) => handles@.dirs.found(id),
                None => None,
            };
            let by_dir = match target_dir {
                Some(id) => handles@.dirs.found(id),
                None => None,
            };
            let target = match by_dir {
                Some(p) => Some(p),
                None => match target_file {
                    Some(id) => handles@.files.found(id),
                    None => None,
                },
            };
            match (base, target) {
                (Some(b), Some(t)) => way_to(b, t) == match r {
                    Some(v) => Some(text::texts(v@)),
                    None => None,
                },
                _ => r is None,
            }
        }),
{
    let base = match dir {
        Some(id) => handles.dir_path(id),
        None => None,
    };
    let by_dir = match target_dir {
        Some(id) => handles.dir_path(id),
        None => None,
    };
    let target = match by_dir {
        Some(p) => Some(p),
        None => match target_file {
            Some(id) => handles.file_path(id),
            None => None,
        },
    };
    match (base, target) {
        (Some(b), Some(t)) => strip(&b, &t),
        _ => None,
    }
}

/// What is opened by name is found again: from the directory, the name leads to it.
pub proof fn opened_child_is_resolved(base: Seq<Seq<char>>, name: Seq<char>)
    ensures
        way_to(base, base.push(name)) == Some(seq![name]),
        way_to(base, base) == Some(Seq::<Seq<char>>::empty()),
{
    assert(base.push(name).take(base.len() as int) =~= base);
    assert(base.push(name).skip(base.len() as int) =~= seq![name]);
    assert(base.take(base.len() as int) =~= base);
    assert(base.skip(base.len() as int) =~= Seq::empty());
}

/// The name of a file that stands in for another while that is written.
pub open spec fn temp_name(name: Seq<char>, stamp: u128) -> Seq<char> {
    "."@ + name + "."@ + number::hexadecimal(stamp as nat) + ".tmp"@
}

/// The path of the file that stands in for another while that is written, beside it.
pub open spec fn temp_path_of(target: Seq<Seq<char>>, stamp: u128) -> Seq<Seq<char>> {
    if target.len() == 0 {
        seq!["."@, temp_name("opfs"@, stamp)]
    } else {
        target.drop_last().push(temp_name(target.last(), stamp))
    }
}

/// The path of the file that stands in for another while that is written, beside it.
pub fn sibling_tmp(target: &Vec<String>, stamp: u128) -> (r: Vec<String>)
    ensures
        text::texts(r@) == temp_path_of(text::texts(target@), stamp),
{
    let ghost t = text::texts(target@);
    let n: usize = target.len();
    let mut name = text::to_chars(".");
    let mut out = copy_path(target);
    proof {
        assert(text::texts(out@).len() == out@.len());
    }
    if n == 0 {
        text::push_text(&mut name, "opfs");
        out = name_alone(".");
    } else {
        text::push_text(&mut name, &target[n - 1]);
        out.truncate(n - 1);
    }
    let ghost held = out@;
    text::push_text(&mut name, ".");
    let hex = number::write_digits(stamp, 16);
    text::push_chars(&mut name, &hex);
    text::push_text(&mut name, ".tmp");
    let word = text::to_text(&name);
    let ghost w = word@;
    out.push(word);
    proof {
        if n == 0 {
            assert(w =~= temp_name("opfs"@, stamp));
            assert(text::texts(held).len() == held.len());
            assert(text::texts(out@) =~= text::texts(held).push(w));
            assert(text::texts(out@) =~= seq!["."@, w]);
        } else {
            assert(t.last() == target@[n - 1]@);
            assert(w =~= temp_name(t.last(), stamp));
            assert(text::texts(out@) =~= t.drop_last().push(w));
        }
    }
    out
}

impl Handles {
    /// Starts writing a file, and gives the writer's number.
    pub fn open_writer(&mut self, target: Vec<String>, temp: Option<Vec<String>>) -> (r: u32)
        ensures
            r == old(self)@.next,
            final(self)@ == (HandlesView {
                writers: old(self)@.writers.with(
                    r,
                    (WriterView {
                        target: text::texts(target@),
                        temp: match temp {
                            Some(p) => Some(text::texts(p@)),
                            None => None,
                        },
                    }),
                ),
                next: registry::next_after(r),
                ..old(self)@
            }),
    {
        let id = registry::next_id(&mut self.next);
        self.writers.put(id, WriterState { target_path: target, temp_path: temp });
        id
    }

    /// Ends a writer. What is then to be done to keep what was written is to move the stand-in
    /// to where the file belongs, where there is a stand-in; to drop it, is to remove it.
    pub fn take_writer(&mut self, id: u32) -> (r: Option<WriterState>)
        ensures
            match old(self)@.writers.found(id) {
                Some(w) => (r matches Some(s) && s@ == w) && final(self)@ == (HandlesView {
                    writers: old(self)@.writers.without(id),
                    ..old(self)@
                }),
                None => r is None && final(self)@ == old(self)@,
            },
    {
        let ghost before = self@;
        let r = self.writers.take(id);
        proof {
            if r is None {
                assert(self@.writers.items =~= before.writers.items);
            } else {
                assert(self@.writers.items =~= before.writers.without(id).items);
            }
        }
        r
    }
}

/// What a write to a stream is: a move of its place, a cut of its length, or data.
#[derive(Clone, Copy, PartialEq, Eq, Structural, Debug)]
pub enum WriteKind {
    Seek,
    Truncate,
    Data,
}

/// What a write to a stream is, by the type that it may name.
pub fn write_kind(word: Option<&str>) -> (r: WriteKind)
    ensures
        r == match word {
            Some(s) => if s@ == "seek"@ {
                WriteKind::Seek
            } else if s@ == "truncate"@ {
                WriteKind::Truncate
            } else {
                WriteKind::Data
            },
            None => WriteKind::Data,
        },
        r == WriteKind::Seek <==> (word matches Some(s) && s@ == "seek"@),
        word matches Some(s) ==> (s@ == "truncate"@ ==> r == WriteKind::Truncate),
        r == WriteKind::Truncate ==> (word matches Some(s) && s@ == "truncate"@),
{
    proof {
        reveal_strlit("seek");
        reveal_strlit("truncate");
        assert("seek"@.len() != "truncate"@.len());
    }
    match word {
        Some(s) => if text::same(s, "seek") {
            WriteKind::Seek
        } else if text::same(s, "truncate") {
            WriteKind::Truncate
        } else {
            WriteKind::Data
        },
        None => WriteKind::Data,
    }
}

/// The sum of sizes, at most the highest number.
pub open spec fn total_of(sizes: Seq<u64>) -> int
    decreases sizes.len(),
{
    if sizes.len() == 0 {
        0
    } else {
        let t = total_of(sizes.drop_last()) + sizes.last();
        if t > u64::MAX {
            u64::MAX as int
        } else {
            t
        }
    }
}

/// The sum of the sizes of what is in a directory, at most the highest number.
pub fn directory_size(sizes: &Vec<u64>) -> (r: u64)
    ensures
        r == total_of(sizes@),
{
    let mut total: u64 = 0;
    let mut i: usize = 0;
    while i < sizes.len()
        invariant
            i <= sizes@.len(),
            total == total_of(sizes@.take(i as int)),
        decreases sizes@.len() - i,
    {
        proof {
            assert(sizes@.take(i + 1).drop_last() =~= sizes@.take(i as int));
            assert(sizes@.take(i + 1).last() == sizes@[i as int]);
        }
        total = if total > u64::MAX - sizes[i] {
            u64::MAX
        } else {
            total + sizes[i]
        };
        i = i + 1;
    }
    proof {
        assert(sizes@.take(sizes@.len() as int) =~= sizes@);
    }
    total
}

/// A text without dots at its ends has a directory's name of its own length: each character that may
/// stay stays, and each other one is an underscore.
pub proof fn names_keep_their_characters(s: Seq<char>, i: int)
    requires
        0 <= i < s.len(),
        s[0] != '.',
        s.last() != '.',
    ensures
        sanitised(s).len() == s.len(),
        is_kept(s[i]) ==> sanitised(s)[i] == s[i],
        !is_kept(s[i]) ==> sanitised(s)[i] == '_',
        is_kept(s[i]) <==> 'a' <= s[i] <= 'z' || 'A' <= s[i] <= 'Z' || '0' <= s[i] <= '9' || s[i]
            == '-' || s[i] == '_' || s[i] == '.',
{
    let m = s.map_values(|c: char| kept(c));
    let k = CharClass::Is('.');
    assert(m[0] == kept(s[0]));
    assert(m.last() == kept(s.last()));
    let (a, b) = text::trimming_takes_the_ends(m, k);
    if a > 0 {
        assert(k.has_char(m[0]));
    }
    if b < m.len() {
        assert(k.has_char(m[m.len() - 1]));
    }
    assert(m.subrange(0, m.len() as int) =~= m);
    assert(sanitised(s)[i] == kept(s[i]));
}

/// A page of its own has its host's directory, and one shown in another page has a directory of its
/// own there; a page without a host has the one with the default name.
pub proof fn directories_follow_the_host(top: Seq<char>, inner: Seq<char>)
    ensures
        origin_name(Some(inner)) == sanitised(inner),
        origin_name(None) == origin_name(Some("default"@)),
        partition_name(None, Some(inner)) == origin_name(Some(inner)),
        partition_name(Some(inner), Some(inner)) == origin_name(Some(inner)),
        partition_name(Some(top), None) == partition_name(Some(top), Some("default"@)),
        top != inner ==> partition_name(Some(top), Some(inner)) == sanitised(top + "__"@ + inner),
{
}

/// A user's data lie where the user says, or else where the system keeps them in the user's directory,
/// or else among the temporary files.
pub proof fn data_lie_where_they_are_kept(
    platform: Platform,
    xdg: Seq<char>,
    home: Seq<char>,
    app: Seq<char>,
    temp: Seq<char>,
)
    requires
        xdg.len() > 0,
    ensures
        data_dir(platform, Some(xdg), Some(home), Some(app), temp) == seq![xdg],
        data_dir(platform, None, None, None, temp) == seq![temp],
        data_dir(platform, Some(Seq::empty()), None, None, temp) == seq![temp],
        data_dir(Platform::Other, None, Some(home), Some(app), temp) == seq![temp],
        data_dir(Platform::Windows, None, Some(home), Some(app), temp) == seq![app],
        data_dir(Platform::MacOs, None, Some(home), Some(app), temp) == seq![
            home,
            "Library"@,
            "Application Support"@,
        ],
        data_dir(Platform::LinuxOrAndroid, None, Some(home), Some(app), temp) == seq![
            home,
            ".local"@,
            "share"@,
        ],
{
}

/// No name of something in a directory has a slash of either kind, is empty, leads to the directory or
/// the one above, or names a drive; every other name is one.
pub proof fn child_names_lead_nowhere_else(a: Seq<char>, b: Seq<char>, c: char, name: Seq<char>)
    ensures
        !is_child_name(a.push('/') + b),
        !is_child_name(a.push('\\') + b),
        !is_child_name(Seq::empty()),
        !is_child_name("."@),
        !is_child_name(".."@),
        'a' <= c <= 'z' || 'A' <= c <= 'Z' ==> !is_child_name(seq![c, ':'] + b),
        is_plain_host(name) && name.len() > 0 ==> is_child_name(name),
{
    let x = a.push('/') + b;
    assert(x[a.len() as int] == '/');
    assert(x.contains('/'));
    let y = a.push('\\') + b;
    assert(y[a.len() as int] == '\\');
    assert(y.contains('\\'));
    let z = seq![c, ':'] + b;
    assert(z[0] == c && z[1] == ':');
    reveal_strlit(".");
    reveal_strlit("..");
    if is_plain_host(name) && name.len() > 0 {
        if name.contains('/') {
            assert(is_kept(name[name.index_of('/')]));
        }
        if name.contains('\\') {
            assert(is_kept(name[name.index_of('\\')]));
        }
        if name.len() >= 2 {
            assert(is_kept(name[1]));
        }
        assert("."@[0] == '.' && ".."@[0] == '.');
    }
}

/// Something is opened where it is there and of the right kind, made where it is not and that is asked
/// for, and not found where it is not asked for; it is removed with all in it only where that is asked
/// for.
pub proof fn steps_follow_what_is_there(
    right: bool,
    other: bool,
    create: bool,
    mismatch: Seq<char>,
    exists: bool,
    is_dir: bool,
    recursive: bool,
)
    ensures
        open_step(right, other, create, mismatch) == Ok::<OpenStep, Seq<char>>(OpenStep::Open)
            <==> right && !other,
        open_step(right, other, create, mismatch) == Ok::<OpenStep, Seq<char>>(OpenStep::Create)
            <==> !right && create,
        !right && !create ==> open_step(right, other, create, mismatch) == Err::<
            OpenStep,
            Seq<char>,
        >("NotFoundError"@),
        right && other ==> open_step(right, other, create, mismatch) == Err::<OpenStep, Seq<char>>(
            mismatch,
        ),
        remove_step(exists, is_dir, recursive) is Err <==> !exists,
        remove_step(exists, is_dir, recursive) == Ok::<RemoveStep, Seq<char>>(RemoveStep::File)
            <==> exists && !is_dir,
        remove_step(exists, is_dir, recursive) == Ok::<RemoveStep, Seq<char>>(RemoveStep::Tree)
            <==> exists && is_dir && recursive,
        remove_step(exists, is_dir, recursive) == Ok::<RemoveStep, Seq<char>>(RemoveStep::EmptyDir)
            <==> exists && is_dir && !recursive,
        remove_step(false, is_dir, recursive) == Err::<RemoveStep, Seq<char>>("NotFoundError"@),
{
}

/// The way from a directory leads to the path, and there is one just to what lies in the directory.
pub proof fn ways_lead_to_their_target(
    base: Seq<Seq<char>>,
    way: Seq<Seq<char>>,
    target: Seq<Seq<char>>,
)
    ensures
        way_to(base, base + way) == Some(way),
        way_to(base, target) == Some(way) ==> target == base + way,
        way_to(base, target) is None <==> !lies_in(base, target),
        lies_in(base, base + way),
{
    let p = base + way;
    assert(p.take(base.len() as int) =~= base);
    assert(p.skip(base.len() as int) =~= way);
    if lies_in(base, target) {
        assert(target =~= base + target.skip(base.len() as int));
    }
}

/// The file that stands in for another lies beside it, under a name that is not its own and that
/// differs from time to time.
pub proof fn stand_ins_lie_beside(
    dir: Seq<Seq<char>>,
    name: Seq<char>,
    stamp: u128,
    other: u128,
)
    ensures
        temp_path_of(dir.push(name), stamp) == dir.push(temp_name(name, stamp)),
        temp_name(name, stamp) != name,
        text::begins(temp_name(name, stamp), "."@ + name + "."@),
        text::ends(temp_name(name, stamp), ".tmp"@),
        stamp != other ==> temp_name(name, stamp) != temp_name(name, other),
{
    assert(dir.push(name).drop_last() =~= dir);
    reveal_strlit(".");
    reveal_strlit(".tmp");
    let x = number::hexadecimal(stamp as nat);
    let y = number::hexadecimal(other as nat);
    let p = "."@ + name + "."@;
    assert(temp_name(name, stamp).len() > name.len());
    text::beginnings_and_ends(p, p, x + ".tmp"@);
    assert(temp_name(name, stamp) =~= p + (x + ".tmp"@));
    assert(temp_name(name, other) =~= p + (y + ".tmp"@));
    text::beginnings_and_ends(p, ".tmp"@, p + x);
    number::number_text_round_trip(stamp as nat, 16, u128::MAX as nat);
    number::number_text_round_trip(other as nat, 16, u128::MAX as nat);
    if stamp != other && temp_name(name, stamp) == temp_name(name, other) {
        let n = p.len() as int;
        let s = temp_name(name, stamp);
        assert(s.len() == n + x.len() + 4);
        assert(s.subrange(n, s.len() - 4) =~= x);
        assert(s.subrange(n, s.len() - 4) =~= y);
    }
}

/// Sizes add up, as far as the highest number goes.
pub proof fn sizes_add_up(a: Seq<u64>, b: Seq<u64>, n: u64)
    ensures
        total_of(Seq::empty()) == 0,
        total_of(seq![n]) == n,
        total_of(a + b) == (if total_of(a) + total_of(b) > u64::MAX {
            u64::MAX as int
        } else {
            total_of(a) + total_of(b)
        }),
        0 <= total_of(b) <= u64::MAX,
    decreases b.len(),
{
    reveal_with_fuel(total_of, 2);
    assert(seq![n].drop_last() =~= Seq::<u64>::empty());
    if b.len() == 0 {
        assert(a + b =~= a);
        lemma_total_bound(a);
    } else {
        sizes_add_up(a, b.drop_last(), n);
        assert((a + b).drop_last() =~= a + b.drop_last());
        assert((a + b).last() == b.last());
        lemma_total_bound(a);
    }
}

proof fn lemma_total_bound(a: Seq<u64>)
    ensures
        0 <= total_of(a) <= u64::MAX,
    decreases a.len(),
{
    if a.len() > 0 {
        lemma_total_bound(a.drop_last());
    }
}

} // verus!
