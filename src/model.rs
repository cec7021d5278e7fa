use vstd::prelude::*;

use crate::config::{Config, URLs};

verus! {

/// One manifest reference inside a project.
pub struct Item {
    pub manifest_id: String,
    pub label: Option<String>,
    pub description: Option<String>,
}

/// A named, ordered collection of manifest references, stored as one file.
pub struct Project {
    pub id: String,
    pub name: String,
    pub description: Option<String>,
    pub items: Vec<Item>,
}

/// The mathematical value of a project: its texts as character sequences
/// and its items in order.
pub struct ProjectView {
    pub id: Seq<char>,
    pub name: Seq<char>,
    pub description: Option<Seq<char>>,
    pub items: Seq<Item>,
}

/// The character sequence of an optional text.
pub open spec fn text_view(t: Option<String>) -> Option<Seq<char>> {
    match t {
        Some(s) => Some(s@),
        None => None,
    }
}

impl View for Project {
    type V = ProjectView;

    open spec fn view(&self) -> ProjectView {
        ProjectView {
            id: self.id@,
            name: self.name@,
            description: text_view(self.description),
            items: self.items@,
        }
    }
}

/// The views of a sequence of projects.
pub open spec fn views(s: Seq<Project>) -> Seq<ProjectView> {
    s.map_values(|p: Project| p@)
}

/// Why an operation on the project store did not succeed.
pub enum StoreError {
    /// No project with this id is indexed.
    NotFound(String),
    /// A file or the directory could not be read or written.
    Io(String),
    /// A file could not be parsed as a project document.
    Parse(String),
}

fn copy_text(t: &Option<String>) -> (r: Option<String>)
    ensures
        r == *t,
{
    match t {
        Some(s) => Some(s.clone()),
        None => None,
    }
}

impl Clone for Item {
    fn clone(&self) -> (r: Self)
        ensures
            r == *self,
    {
        Item {
            manifest_id: self.manifest_id.clone(),
            label: copy_text(&self.label),
            description: copy_text(&self.description),
        }
    }
}

impl Clone for Project {
    fn clone(&self) -> (r: Self)
        ensures
            r@ == self@,
    {
        let items = self.items.clone();
        assert(items@ =~= self.items@);
        Project {
            id: self.id.clone(),
            name: self.name.clone(),
            description: copy_text(&self.description),
            items,
        }
    }
}

impl Clone for StoreError {
    fn clone(&self) -> (r: Self)
        ensures
            r == *self,
    {
        match self {
            StoreError::NotFound(s) => StoreError::NotFound(s.clone()),
            StoreError::Io(s) => StoreError::Io(s.clone()),
            StoreError::Parse(s) => StoreError::Parse(s.clone()),
        }
    }
}

impl StoreError {
    /// A human-readable account of the error.
    pub fn message(&self) -> (r: String)
        ensures
            r@ == self.detail(),
    {
        match self {
            StoreError::NotFound(s) => s.clone(),
            StoreError::Io(s) => s.clone(),
            StoreError::Parse(s) => s.clone(),
        }
    }

    /// The text that the error carries: the id, file or reason concerned.
    pub open spec fn detail(&self) -> Seq<char> {
        match self {
            StoreError::NotFound(s) => s@,
            StoreError::Io(s) => s@,
            StoreError::Parse(s) => s@,
        }
    }
}

/// The index that a sequence of project documents yields when each is
/// inserted in turn under its own id: a later document replaces an earlier
/// one with the same id.
pub open spec fn index_of(s: Seq<ProjectView>) -> Map<Seq<char>, ProjectView>
    decreases s.len(),
{
    if s.len() == 0 {
        Map::empty()
    } else {
        index_of(s.drop_last()).insert(s.last().id, s.last())
    }
}

/// No two projects of `s` share an id.
pub open spec fn ids_unique(s: Seq<ProjectView>) -> bool {
    forall|i: int, j: int| 0 <= i < j < s.len() ==> s[i].id != s[j].id
}

/// One regular file of the projects directory: its name, and the project
/// its content parsed to or why it could not be read or parsed.
pub struct ScannedFile {
    pub name: String,
    pub document: Result<Project, StoreError>,
}

/// Every document of a directory scan was read and parsed.
pub open spec fn all_parsed(s: Seq<ScannedFile>) -> bool {
    forall|i: int| 0 <= i < s.len() ==> s[i].document is Ok
}

/// The file parsed, and its name is the id it states: the file that saving
/// that project writes.
pub open spec fn named_by_id(f: ScannedFile) -> bool {
    f.document is Ok && f.name@ == f.document->Ok_0.id@
}

/// The parsed documents of `s` whose file is not named by their id, in scan
/// order.
pub open spec fn misnamed(s: Seq<ScannedFile>) -> Seq<ProjectView>
    decreases s.len(),
{
    if s.len() == 0 {
        Seq::empty()
    } else if named_by_id(s.last()) || s.last().document is Err {
        misnamed(s.drop_last())
    } else {
        misnamed(s.drop_last()).push(s.last().document->Ok_0@)
    }
}

/// The documents of `s` whose file is named by their id, in scan order.
pub open spec fn well_named(s: Seq<ScannedFile>) -> Seq<ProjectView>
    decreases s.len(),
{
    if s.len() == 0 {
        Seq::empty()
    } else if named_by_id(s.last()) {
        well_named(s.drop_last()).push(s.last().document->Ok_0@)
    } else {
        well_named(s.drop_last())
    }
}

/// The documents of a fully parsed scan in the order they are indexed: a
/// document in the file named by its id is indexed after every other, so it
/// wins over a stale copy of the same id under another name.
pub open spec fn parsed(s: Seq<ScannedFile>) -> Seq<ProjectView> {
    misnamed(s) + well_named(s)
}

/// `index_of(s)` holds an entry for exactly the ids that occur in `s`: an
/// index built from a scan lists every scanned document's id and no other,
/// whatever the files are named.
pub proof fn lemma_index_domain(s: Seq<ProjectView>, k: Seq<char>)
    ensures
        index_of(s).contains_key(k) <==> exists|i: int| 0 <= i < s.len() && s[i].id == k,
    decreases s.len(),
{
    if s.len() > 0 {
        lemma_index_domain(s.drop_last(), k);
        if index_of(s.drop_last()).contains_key(k) {
            let i = choose|i: int| 0 <= i < s.drop_last().len() && s.drop_last()[i].id == k;
            assert(s[i].id == k);
        }
        if exists|i: int| 0 <= i < s.len() && s[i].id == k {
            let i = choose|i: int| 0 <= i < s.len() && s[i].id == k;
            if i < s.len() - 1 {
                assert(s.drop_last()[i].id == k);
            }
        }
    }
}

/// The entry of `index_of(s)` under an id is the last document of `s` with
/// that id.
pub proof fn lemma_index_last(s: Seq<ProjectView>, i: int)
    requires
        0 <= i < s.len(),
        forall|j: int| i < j < s.len() ==> s[j].id != s[i].id,
    ensures
        index_of(s).contains_key(s[i].id),
        index_of(s)[s[i].id] == s[i],
    decreases s.len(),
{
    if i < s.len() - 1 {
        lemma_index_last(s.drop_last(), i);
    }
}

/// Where `p` is in `s` and every document of `s` with `p`'s id is `p`, the
/// index of `s` holds `p` under its id.
proof fn lemma_sole_document(s: Seq<ProjectView>, p: ProjectView)
    requires
        s.contains(p),
        forall|i: int| 0 <= i < s.len() && s[i].id == p.id ==> s[i] == p,
    ensures
        index_of(s).contains_key(p.id),
        index_of(s)[p.id] == p,
    decreases s.len(),
{
    if s.last().id != p.id {
        let i = choose|i: int| 0 <= i < s.len() && s[i] == p;
        assert(s.drop_last()[i] == p);
        lemma_sole_document(s.drop_last(), p);
    }
}

/// An id that the index of `b` holds keeps that entry in the index of `a + b`.
proof fn lemma_index_suffix_wins(a: Seq<ProjectView>, b: Seq<ProjectView>, k: Seq<char>)
    requires
        index_of(b).contains_key(k),
    ensures
        index_of(a + b).contains_key(k),
        index_of(a + b)[k] == index_of(b)[k],
    decreases b.len(),
{
    assert((a + b).drop_last() =~= a + b.drop_last());
    assert((a + b).last() == b.last());
    if b.last().id != k {
        lemma_index_suffix_wins(a, b.drop_last(), k);
    }
}

/// `v` is the document of a file of `s` named by its id.
pub open spec fn from_named_file(s: Seq<ScannedFile>, v: ProjectView) -> bool {
    exists|i: int| 0 <= i < s.len() && named_by_id(s[i]) && s[i].document->Ok_0@ == v
}

/// Each document of `well_named(s)` comes from a file of `s` named by its
/// id, and each such file's document is in `well_named(s)`.
proof fn lemma_well_named_members(s: Seq<ScannedFile>)
    ensures
        forall|j: int|
            0 <= j < well_named(s).len() ==> from_named_file(s, #[trigger] well_named(s)[j]),
        forall|i: int|
            0 <= i < s.len() && named_by_id(s[i]) ==> well_named(s).contains(
                s[i].document->Ok_0@,
            ),
    decreases s.len(),
{
    if s.len() == 0 {
        assert(well_named(s).len() == 0);
    } else {
        let d = s.drop_last();
        lemma_well_named_members(d);
        let w = well_named(s);
        let wd = well_named(d);
        assert forall|j: int| 0 <= j < w.len() implies from_named_file(s, #[trigger] w[j]) by {
            if j < wd.len() {
                assert(w[j] == wd[j]);
                assert(from_named_file(d, wd[j]));
                let i = choose|i: int|
                    0 <= i < d.len() && named_by_id(d[i]) && d[i].document->Ok_0@ == wd[j];
                assert(s[i] == d[i]);
                assert(0 <= i < s.len() && named_by_id(s[i]) && s[i].document->Ok_0@ == w[j]);
            } else {
                assert(named_by_id(s.last()));
                assert(s[s.len() - 1] == s.last());
                assert(s[s.len() - 1].document->Ok_0@ == w[j]);
            }
        }
        assert forall|i: int| 0 <= i < s.len() && named_by_id(s[i]) implies w.contains(
            s[i].document->Ok_0@,
        ) by {
            if i < s.len() - 1 {
                assert(d[i] == s[i]);
                let k = choose|k: int| 0 <= k < wd.len() && wd[k] == d[i].document->Ok_0@;
                assert(w[k] == wd[k]);
            } else {
                assert(w[w.len() - 1] == s[i].document->Ok_0@);
            }
        }
    }
}

/// `v` is the document of some file of `s`.
pub open spec fn from_file(s: Seq<ScannedFile>, v: ProjectView) -> bool {
    exists|i: int| 0 <= i < s.len() && s[i].document is Ok && s[i].document->Ok_0@ == v
}

/// The documents that `parsed(s)` indexes are exactly those of the files of
/// `s` that parsed.
proof fn lemma_parsed_members(s: Seq<ScannedFile>)
    ensures
        forall|j: int|
            0 <= j < parsed(s).len() ==> from_file(s, #[trigger] parsed(s)[j]),
        forall|i: int|
            0 <= i < s.len() && s[i].document is Ok ==> parsed(s).contains(
                s[i].document->Ok_0@,
            ),
    decreases s.len(),
{
    if s.len() == 0 {
        assert(parsed(s).len() == 0);
    } else {
        let d = s.drop_last();
        lemma_parsed_members(d);
        let m = misnamed(s);
        let w = well_named(s);
        let md = misnamed(d);
        let wd = well_named(d);
        let x = s.last().document->Ok_0@;
        assert(s[s.len() - 1] == s.last());
        assert forall|j: int| 0 <= j < parsed(s).len() implies from_file(s, #[trigger] parsed(s)[j]) by {
            let v = parsed(s)[j];
            if named_by_id(s.last()) {
                if j < md.len() + wd.len() {
                    assert(parsed(d)[j] == v);
                    assert(from_file(d, v));
                }
            } else if s.last().document is Ok {
                if j < md.len() {
                    assert(parsed(d)[j] == v);
                    assert(from_file(d, v));
                } else if j > md.len() {
                    assert(parsed(d)[j - 1] == v);
                    assert(from_file(d, v));
                }
            } else {
                assert(parsed(s) == parsed(d));
                assert(from_file(d, v));
            }
            if v != x {
                let i = choose|i: int|
                    0 <= i < d.len() && d[i].document is Ok && d[i].document->Ok_0@ == v;
                assert(s[i] == d[i]);
            }
        }
        assert forall|i: int| 0 <= i < s.len() && s[i].document is Ok implies parsed(s).contains(
            s[i].document->Ok_0@,
        ) by {
            let v = s[i].document->Ok_0@;
            if i == s.len() - 1 {
                if named_by_id(s.last()) {
                    assert(parsed(s)[parsed(s).len() - 1] == v);
                } else {
                    assert(parsed(s)[md.len() as int] == v);
                }
            } else {
                assert(d[i] == s[i]);
                let k = choose|k: int| 0 <= k < parsed(d).len() && parsed(d)[k] == v;
                if named_by_id(s.last()) {
                    assert(parsed(s)[k] == v);
                } else if s.last().document is Err {
                    assert(parsed(s) == parsed(d));
                } else if k < md.len() {
                    assert(parsed(s)[k] == v);
                } else {
                    assert(parsed(s) =~= md.push(x) + wd);
                    assert(parsed(s)[k + 1] == v);
                }
            }
        }
    }
}

/// Neither the order in which files are found nor their names change the
/// index, where no id is stated by two different documents: two fully
/// parsed scans that hold the same documents yield the same index.
pub proof fn lemma_scan_order_and_names_free(s1: Seq<ScannedFile>, s2: Seq<ScannedFile>)
    requires
        all_parsed(s1),
        all_parsed(s2),
        forall|v: ProjectView| from_file(s1, v) <==> from_file(s2, v),
        forall|i: int, j: int|
            0 <= i < s1.len() && 0 <= j < s1.len() && s1[i].document->Ok_0.id@
                == s1[j].document->Ok_0.id@ ==> s1[i].document->Ok_0@ == s1[j].document->Ok_0@,
    ensures
        index_of(parsed(s1)) == index_of(parsed(s2)),
{
    lemma_parsed_members(s1);
    lemma_parsed_members(s2);
    let p1 = parsed(s1);
    let p2 = parsed(s2);
    assert forall|k: Seq<char>| #[trigger] index_of(p1).contains_key(k) == index_of(p2).contains_key(k)
        && (index_of(p1).contains_key(k) ==> index_of(p1)[k] == index_of(p2)[k]) by {
        lemma_index_domain(p1, k);
        lemma_index_domain(p2, k);
        if exists|j: int| 0 <= j < p1.len() && p1[j].id == k {
            let j = choose|j: int| 0 <= j < p1.len() && p1[j].id == k;
            let x = p1[j];
            assert(from_file(s1, x));
            assert(from_file(s2, x));
            let i2 = choose|i: int| 0 <= i < s2.len() && s2[i].document is Ok && s2[i].document->Ok_0@ == x;
            assert(p2.contains(x));
            let j2 = choose|j2: int| 0 <= j2 < p2.len() && p2[j2] == x;
            assert(p2[j2].id == k);
            assert forall|n: int| 0 <= n < p1.len() && p1[n].id == x.id implies p1[n] == x by {
                assert(from_file(s1, p1[n]));
                let a = choose|a: int| 0 <= a < s1.len() && s1[a].document is Ok && s1[a].document->Ok_0@ == p1[n];
                let b = choose|b: int| 0 <= b < s1.len() && s1[b].document is Ok && s1[b].document->Ok_0@ == x;
            }
            assert forall|n: int| 0 <= n < p2.len() && p2[n].id == x.id implies p2[n] == x by {
                assert(from_file(s2, p2[n]));
                assert(from_file(s1, p2[n]));
                let a = choose|a: int| 0 <= a < s1.len() && s1[a].document is Ok && s1[a].document->Ok_0@ == p2[n];
                let b = choose|b: int| 0 <= b < s1.len() && s1[b].document is Ok && s1[b].document->Ok_0@ == x;
            }
            lemma_sole_document(p1, x);
            lemma_sole_document(p2, x);
        } else if exists|j: int| 0 <= j < p2.len() && p2[j].id == k {
            let j = choose|j: int| 0 <= j < p2.len() && p2[j].id == k;
            assert(from_file(s2, p2[j]));
            assert(from_file(s1, p2[j]));
            let i = choose|i: int| 0 <= i < s1.len() && s1[i].document is Ok && s1[i].document->Ok_0@ == p2[j];
            assert(p1.contains(p2[j]));
        }
    }
    assert(index_of(p1) =~= index_of(p2));
}

/// The file that saving `p` wrote decides `p`'s id: where some file named by
/// `p`'s id holds `p`, and every file of that name does, the index of a
/// fully parsed scan holds `p` under its id, whatever other files state the
/// same id and in whatever order the scan found them.
pub proof fn lemma_written_file_wins(s: Seq<ScannedFile>, p: ProjectView)
    requires
        exists|i: int|
            0 <= i < s.len() && s[i].name@ == p.id && s[i].document is Ok && s[i].document->Ok_0@
                == p,
        forall|i: int|
            0 <= i < s.len() && s[i].name@ == p.id ==> s[i].document is Ok
                && s[i].document->Ok_0@ == p,
    ensures
        index_of(parsed(s)).contains_key(p.id),
        index_of(parsed(s))[p.id] == p,
{
    lemma_well_named_members(s);
    let w = well_named(s);
    let i = choose|i: int|
        0 <= i < s.len() && s[i].name@ == p.id && s[i].document is Ok && s[i].document->Ok_0@ == p;
    assert(named_by_id(s[i]));
    assert forall|j: int| 0 <= j < w.len() && w[j].id == p.id implies w[j] == p by {
        assert(from_named_file(s, w[j]));
        let k = choose|k: int|
            0 <= k < s.len() && named_by_id(s[k]) && s[k].document->Ok_0@ == w[j];
        assert(s[k].name@ == p.id);
    }
    lemma_sole_document(w, p);
    lemma_index_suffix_wins(misnamed(s), w, p.id);
}

/// Read after write: a reload that follows the write of `p` indexes `p`
/// under its id, whatever the scan holds, and takes every other id from the
/// scan.
pub proof fn lemma_read_after_write(s: Seq<ProjectView>, p: ProjectView)
    ensures
        reloaded(s, Some(p)).contains_key(p.id),
        reloaded(s, Some(p))[p.id] == p,
        forall|k: Seq<char>|
            k != p.id ==> (reloaded(s, Some(p)).contains_key(k) == index_of(s).contains_key(k)
                && reloaded(s, Some(p))[k] == index_of(s)[k]),
{
}

/// Two saves of projects with different ids are both visible: after `p` was
/// saved, its file named by its id holds it; a later save of `q` reloads a
/// scan that still holds that file, and the index then holds both.
pub proof fn lemma_distinct_writes_visible(s: Seq<ScannedFile>, p: ProjectView, q: ProjectView)
    requires
        p.id != q.id,
        exists|i: int|
            0 <= i < s.len() && s[i].name@ == p.id && s[i].document is Ok && s[i].document->Ok_0@
                == p,
        forall|i: int|
            0 <= i < s.len() && s[i].name@ == p.id ==> s[i].document is Ok
                && s[i].document->Ok_0@ == p,
    ensures
        reloaded(parsed(s), Some(q)).contains_key(p.id),
        reloaded(parsed(s), Some(q))[p.id] == p,
        reloaded(parsed(s), Some(q)).contains_key(q.id),
        reloaded(parsed(s), Some(q))[q.id] == q,
{
    lemma_written_file_wins(s, p);
    lemma_read_after_write(parsed(s), q);
}

/// Appending keeps the existing items in order and adds the new ones after
/// them; appending `a` and then `b` gives the existing items, then `a`, then
/// `b`, and leaves everything else as it was.
pub proof fn lemma_appends_in_call_order(p: ProjectView, a: Seq<Item>, b: Seq<Item>)
    ensures
        with_items(p, a).items.take(p.items.len() as int) == p.items,
        with_items(with_items(p, a), b).items == p.items + a + b,
        with_items(with_items(p, a), b) == with_items(p, a + b),
        with_items(with_items(p, a), b).id == p.id,
        with_items(with_items(p, a), b).name == p.name,
        with_items(with_items(p, a), b).description == p.description,
{
    assert(with_items(p, a).items.take(p.items.len() as int) =~= p.items);
    assert(p.items + a + b =~= p.items + (a + b));
}

/// Replacing a document by one with the same id replaces its entry.
proof fn lemma_index_update(s: Seq<ProjectView>, j: int, p: ProjectView)
    requires
        ids_unique(s),
        0 <= j < s.len(),
        s[j].id == p.id,
    ensures
        index_of(s.update(j, p)) == index_of(s).insert(p.id, p),
    decreases s.len(),
{
    let t = s.update(j, p);
    if j == s.len() - 1 {
        assert(t.drop_last() =~= s.drop_last());
        assert(index_of(t) =~= index_of(s).insert(p.id, p));
    } else {
        assert(t.drop_last() =~= s.drop_last().update(j, p));
        lemma_index_update(s.drop_last(), j, p);
        assert(s.last().id != p.id);
        assert(index_of(t) =~= index_of(s).insert(p.id, p));
    }
}

/// Inserts `p` under its id, replacing a project with the same id.
fn put(v: &mut Vec<Project>, p: Project)
    requires
        ids_unique(views(old(v)@)),
    ensures
        ids_unique(views(final(v)@)),
        index_of(views(final(v)@)) == index_of(views(old(v)@)).insert(p@.id, p@),
{
    let mut j: usize = 0;
    while j < v.len()
        invariant
            j <= v.len(),
            v@ == old(v)@,
            ids_unique(views(old(v)@)),
            forall|k: int| 0 <= k < j ==> v@[k].id@ != p.id@,
        decreases v.len() - j,
    {
        if v[j].id == p.id {
            proof {
                lemma_index_update(views(v@), j as int, p@);
                assert(views(v@.update(j as int, p)) =~= views(v@).update(j as int, p@));
            }
            v[j] = p;
            assert(ids_unique(views(v@)));
            return;
        }
        j = j + 1;
    }
    proof {
        assert(views(v@.push(p)) =~= views(v@).push(p@));
        assert(views(v@).push(p@).drop_last() =~= views(v@));
    }
    v.push(p);
}

/// A failed read or parse of a scan: `e` is the error of its first document
/// that did not parse, and every document before it parsed.
pub open spec fn first_error(s: Seq<ScannedFile>, e: StoreError) -> bool {
    exists|i: int|
        0 <= i < s.len() && s[i].document == Err::<Project, StoreError>(e) && all_parsed(
            s.take(i),
        )
}

/// What the store asks of its host next. The host performs the action and
/// reports an [`Event`] back, holding the store exclusively throughout.
pub enum Action {
    /// Write the project as a document to the file named by its id,
    /// replacing any file there.
    Write(Project),
    /// Read and parse every regular file of the directory, in the order found.
    Scan,
    /// The operation is over, with this outcome.
    Done(Result<(), StoreError>),
}

/// What the host reports after carrying out an [`Action`].
pub enum Event {
    /// The outcome of a `Write`.
    Written(Result<(), StoreError>),
    /// The directory could be enumerated: one entry per regular file, in the
    /// order found.
    Scanned(Vec<ScannedFile>),
    /// The directory could not be enumerated.
    ScanFailed(StoreError),
}

/// The project `p` with `new` appended to its items.
pub open spec fn with_items(p: ProjectView, new: Seq<Item>) -> ProjectView {
    ProjectView { items: p.items + new, ..p }
}

/// The in-memory index of a directory that holds one project document per
/// file, keyed by the id that each document states.
pub struct Projects {
    data: Vec<Project>,
    projects_path: String,
    pending: Option<Project>,
}

/// The index that a reload yields: the scanned documents, with the project
/// just written, if any, under its id. The written document is what the
/// reload must reflect, whichever other file states the same id.
pub open spec fn reloaded(s: Seq<ProjectView>, written: Option<ProjectView>) -> Map<
    Seq<char>,
    ProjectView,
> {
    match written {
        Some(p) => index_of(s).insert(p.id, p),
        None => index_of(s),
    }
}

impl View for Projects {
    type V = Map<Seq<char>, ProjectView>;

    closed spec fn view(&self) -> Map<Seq<char>, ProjectView> {
        index_of(views(self.data@))
    }
}

impl Projects {
    /// The index holds at most one project per id.
    pub closed spec fn wf(&self) -> bool {
        ids_unique(views(self.data@))
    }

    /// The directory that the index mirrors.
    pub closed spec fn dir(&self) -> Seq<char> {
        self.projects_path@
    }

    /// The project whose write the running operation awaits or has seen
    /// succeed: the next reload indexes it under its id.
    pub closed spec fn pending(&self) -> Option<ProjectView> {
        match self.pending {
            Some(p) => Some(p@),
            None => None,
        }
    }

    /// Builds the index of the directory `projects_path` from a scan of its
    /// regular files, in the order they were found.
    pub fn new(projects_path: &str, files: Vec<ScannedFile>) -> (r: Result<
        Projects,
        StoreError,
    >)
        ensures
            match r {
                Ok(p) => {
                    &&& all_parsed(files@)
                    &&& p.wf()
                    &&& p@ == index_of(parsed(files@))
                    &&& p.dir() == projects_path@
                    &&& p.pending() is None
                },
                Err(e) => !all_parsed(files@) && first_error(files@, e),
            },
    {
        let mut projects = Projects {
            data: Vec::new(),
            projects_path: projects_path.to_owned(),
            pending: None,
        };
        match projects.load(files) {
            Ok(()) => Ok(projects),
            Err(e) => Err(e),
        }
    }

    /// The directory that the index mirrors.
    pub fn path(&self) -> (r: &String)
        ensures
            r@ == self.dir(),
    {
        &self.projects_path
    }

    /// The index that `files`, a fresh scan of the directory, yields; or
    /// the error of its first document that failed to read or parse.
    fn build(files: &Vec<ScannedFile>) -> (r: Result<Vec<Project>, StoreError>)
        ensures
            match r {
                Ok(v) => {
                    &&& all_parsed(files@)
                    &&& ids_unique(views(v@))
                    &&& index_of(views(v@)) == index_of(parsed(files@))
                },
                Err(e) => !all_parsed(files@) && first_error(files@, e),
            },
    {
        let mut fresh: Vec<Project> = Vec::new();
        let mut i: usize = 0;
        while i < files.len()
            invariant
                i <= files.len(),
                all_parsed(files@.take(i as int)),
                ids_unique(views(fresh@)),
                index_of(views(fresh@)) == index_of(misnamed(files@.take(i as int))),
            decreases files.len() - i,
        {
            let ghost t = files@.take(i + 1);
            assert(t.drop_last() =~= files@.take(i as int));
            assert(t.last() == files@[i as int]);
            match &files[i].document {
                Ok(p) => {
                    if files[i].name != p.id {
                        let q = p.clone();
                        proof {
                            let before = misnamed(files@.take(i as int));
                            assert(misnamed(t) == before.push(q@));
                            assert(before.push(q@).drop_last() =~= before);
                        }
                        put(&mut fresh, q);
                    }
                },
                Err(e) => {
                    proof {
                        assert(files@[i as int].document == Err::<Project, StoreError>(*e));
                    }
                    return Err(e.clone());
                },
            }
            assert(all_parsed(t));
            i = i + 1;
        }
        assert(files@.take(files@.len() as int) =~= files@);
        let mut j: usize = 0;
        while j < files.len()
            invariant
                j <= files.len(),
                all_parsed(files@),
                ids_unique(views(fresh@)),
                index_of(views(fresh@)) == index_of(
                    misnamed(files@) + well_named(files@.take(j as int)),
                ),
            decreases files.len() - j,
        {
            let ghost t = files@.take(j + 1);
            assert(t.drop_last() =~= files@.take(j as int));
            assert(t.last() == files@[j as int]);
            match &files[j].document {
                Ok(p) => {
                    if files[j].name == p.id {
                        let q = p.clone();
                        proof {
                            let before = misnamed(files@) + well_named(files@.take(j as int));
                            assert(misnamed(files@) + well_named(t) =~= before.push(q@));
                            assert(before.push(q@).drop_last() =~= before);
                        }
                        put(&mut fresh, q);
                    } else {
                        assert(well_named(t) == well_named(files@.take(j as int)));
                    }
                },
                Err(e) => {},
            }
            j = j + 1;
        }
        assert(files@.take(files@.len() as int) =~= files@);
        Ok(fresh)
    }


    /// Replaces the whole index by the one that `files`, a fresh scan of the
    /// directory, yields. Where a document failed to read or parse, the
    /// index is left exactly as it was and that document's error is returned.
    pub fn load(&mut self, files: Vec<ScannedFile>) -> (r: Result<(), StoreError>)
        requires
            old(self).wf(),
        ensures
            final(self).wf(),
            final(self).dir() == old(self).dir(),
            final(self).pending() == old(self).pending(),
            match r {
                Ok(()) => all_parsed(files@) && final(self)@ == index_of(parsed(files@)),
                Err(e) => {
                    &&& !all_parsed(files@)
                    &&& first_error(files@, e)
                    &&& final(self)@ == old(self)@
                },
            },
    {
        match Self::build(&files) {
            Ok(fresh) => {
                self.data = fresh;
                Ok(())
            },
            Err(e) => Err(e),
        }
    }

    /// The indexed project with this id, as an independent copy.
    pub fn get(&self, project_id: &str) -> (r: Option<Project>)
        requires
            self.wf(),
        ensures
            match r {
                Some(p) => self@.contains_key(project_id@) && p@ == self@[project_id@],
                None => !self@.contains_key(project_id@),
            },
    {
        let key = project_id.to_owned();
        let mut i: usize = 0;
        while i < self.data.len()
            invariant
                i <= self.data.len(),
                key@ == project_id@,
                self.wf(),
                forall|k: int| 0 <= k < i ==> self.data@[k].id@ != key@,
            decreases self.data.len() - i,
        {
            if self.data[i].id == key {
                proof {
                    let vs = views(self.data@);
                    assert forall|j: int| i < j < vs.len() implies vs[j].id != vs[i as int].id by {
                        assert(vs[i as int].id != vs[j].id);
                    }
                    lemma_index_last(vs, i as int);
                }
                return Some(self.data[i].clone());
            }
            i = i + 1;
        }
        proof {
            lemma_index_domain(views(self.data@), key@);
        }
        None
    }

    /// Independent copies of every indexed project, in no promised order.
    pub fn list(&self) -> (r: Vec<Project>)
        requires
            self.wf(),
        ensures
            ids_unique(views(r@)),
            index_of(views(r@)) == self@,
    {
        let mut out: Vec<Project> = Vec::new();
        let mut i: usize = 0;
        while i < self.data.len()
            invariant
                i <= self.data.len(),
                views(out@) == views(self.data@).take(i as int),
            decreases self.data.len() - i,
        {
            let c = self.data[i].clone();
            let ghost before = out@;
            out.push(c);
            assert(views(out@) =~= views(before).push(c@));
            assert(views(out@) =~= views(self.data@).take(i + 1));
            i = i + 1;
        }
        assert(views(self.data@).take(self.data@.len() as int) =~= views(self.data@));
        out
    }

    /// Starts saving `project`: its document is written first, and the
    /// reload that follows a successful write indexes it.
    pub fn save(&mut self, project: &Project) -> (a: Action)
        requires
            old(self).wf(),
        ensures
            a is Write && a->Write_0@ == project@,
            final(self).wf(),
            final(self).dir() == old(self).dir(),
            final(self)@ == old(self)@,
            final(self).pending() == Some(project@),
    {
        self.pending = Some(project.clone());
        Action::Write(project.clone())
    }

    /// Starts a full reload of the directory.
    pub fn update(&mut self) -> (a: Action)
        requires
            old(self).wf(),
        ensures
            a is Scan,
            final(self).wf(),
            final(self).dir() == old(self).dir(),
            final(self)@ == old(self)@,
            final(self).pending() is None,
    {
        self.pending = None;
        Action::Scan
    }

    /// Takes the host's report on the last action and decides the next one.
    /// A failed write ends the operation with its error and no reload; a
    /// successful one is followed by a reload. A reload that parses every
    /// document replaces the index by the scan with the written project
    /// under its id; one that fails leaves the index as it was. Its outcome
    /// ends the operation.
    pub fn resume(&mut self, event: Event) -> (a: Action)
        requires
            old(self).wf(),
        ensures
            final(self).wf(),
            final(self).dir() == old(self).dir(),
            match event {
                Event::Written(Ok(())) => {
                    &&& a is Scan
                    &&& final(self)@ == old(self)@
                    &&& final(self).pending() == old(self).pending()
                },
                Event::Written(Err(e)) => {
                    &&& a == Action::Done(Err(e))
                    &&& final(self)@ == old(self)@
                    &&& final(self).pending() is None
                },
                Event::ScanFailed(e) => {
                    &&& a == Action::Done(Err(e))
                    &&& final(self)@ == old(self)@
                    &&& final(self).pending() is None
                },
                Event::Scanned(files) => {
                    &&& a is Done
                    &&& final(self).pending() is None
                    &&& match a->Done_0 {
                        Ok(()) => {
                            &&& all_parsed(files@)
                            &&& final(self)@ == reloaded(parsed(files@), old(self).pending())
                        },
                        Err(e) => {
                            &&& !all_parsed(files@)
                            &&& first_error(files@, e)
                            &&& final(self)@ == old(self)@
                        },
                    }
                },
            },
    {
        match event {
            Event::Written(Ok(())) => Action::Scan,
            Event::Written(Err(e)) => {
                self.pending = None;
                Action::Done(Err(e))
            },
            Event::ScanFailed(e) => {
                self.pending = None;
                Action::Done(Err(e))
            },
            Event::Scanned(files) => {
                let written = self.pending.take();
                match Self::build(&files) {
                    Ok(fresh) => {
                        let mut fresh = fresh;
                        match written {
                            Some(p) => put(&mut fresh, p),
                            None => {},
                        }
                        self.data = fresh;
                        Action::Done(Ok(()))
                    },
                    Err(e) => Action::Done(Err(e)),
                }
            },
        }
    }
}

/// The shared state of the service: the project index and the URLs that
/// pages link to. The host keeps it behind one lock, so that each operation,
/// with the actions it asks for, runs alone.
pub struct AppState {
    pub projects: Projects,
    pub urls: URLs,
}

impl AppState {
    /// The state for `config`, indexing a scan of its projects directory.
    pub fn new(config: Config, files: Vec<ScannedFile>) -> (r: Result<
        AppState,
        StoreError,
    >)
        ensures
            match r {
                Ok(s) => {
                    &&& all_parsed(files@)
                    &&& s.projects.wf()
                    &&& s.projects@ == index_of(parsed(files@))
                    &&& s.projects.dir() == config.projects_path@
                    &&& s.projects.pending() is None
                    &&& s.urls == config.urls
                },
                Err(e) => !all_parsed(files@) && first_error(files@, e),
            },
    {
        match Projects::new(config.projects_path.as_str(), files) {
            Ok(projects) => Ok(AppState { projects, urls: config.urls }),
            Err(e) => Err(e),
        }
    }

    /// The project with this id, as an independent copy.
    pub fn get(&self, project_id: &str) -> (r: Option<Project>)
        requires
            self.projects.wf(),
        ensures
            match r {
                Some(p) => self.projects@.contains_key(project_id@) && p@
                    == self.projects@[project_id@],
                None => !self.projects@.contains_key(project_id@),
            },
    {
        self.projects.get(project_id)
    }

    /// Independent copies of every project, in no promised order.
    pub fn list(&self) -> (r: Vec<Project>)
        requires
            self.projects.wf(),
        ensures
            ids_unique(views(r@)),
            index_of(views(r@)) == self.projects@,
    {
        self.projects.list()
    }

    /// Starts a full reload of the projects directory.
    pub fn update(&mut self) -> (a: Action)
        requires
            old(self).projects.wf(),
        ensures
            a is Scan,
            final(self).projects.wf(),
            final(self).projects.dir() == old(self).projects.dir(),
            final(self).projects@ == old(self).projects@,
            final(self).projects.pending() is None,
            final(self).urls == old(self).urls,
    {
        self.projects.update()
    }

    /// Starts saving `project` under its id.
    pub fn save(&mut self, project: Project) -> (a: Action)
        requires
            old(self).projects.wf(),
        ensures
            a is Write && a->Write_0@ == project@,
            final(self).projects.wf(),
            final(self).projects.dir() == old(self).projects.dir(),
            final(self).projects@ == old(self).projects@,
            final(self).projects.pending() == Some(project@),
            final(self).urls == old(self).urls,
    {
        self.projects.save(&project)
    }

    /// Starts appending `items`, in order, to the project with this id: the
    /// extended project is then saved. An unknown id ends the operation at
    /// once with `NotFound`.
    pub fn add_items(&mut self, project_id: &str, items: Vec<Item>) -> (a: Action)
        requires
            old(self).projects.wf(),
        ensures
            final(self).projects.wf(),
            final(self).projects.dir() == old(self).projects.dir(),
            final(self).projects@ == old(self).projects@,
            final(self).urls == old(self).urls,
            old(self).projects@.contains_key(project_id@) ==> {
                &&& a is Write
                &&& a->Write_0@ == with_items(old(self).projects@[project_id@], items@)
                &&& final(self).projects.pending() == Some(
                    with_items(old(self).projects@[project_id@], items@),
                )
            },
            !old(self).projects@.contains_key(project_id@) ==> {
                &&& a is Done
                &&& a->Done_0 is Err
                &&& a->Done_0->Err_0 is NotFound
                &&& a->Done_0->Err_0->NotFound_0@ == project_id@
                &&& final(self).projects.pending() is None
            },
    {
        match self.projects.get(project_id) {
            Some(p) => {
                let ghost new = items@;
                let mut p = p;
                let mut items = items;
                p.items.append(&mut items);
                assert(p@.items =~= with_items(self.projects@[project_id@], new).items);
                assert(p@ == with_items(self.projects@[project_id@], new));
                self.projects.save(&p)
            },
            None => {
                self.projects.pending = None;
                Action::Done(Err(StoreError::NotFound(project_id.to_owned())))
            },
        }
    }

    /// Takes the host's report on the last action and decides the next one,
    /// as [`Projects::resume`] does.
    pub fn resume(&mut self, event: Event) -> (a: Action)
        requires
            old(self).projects.wf(),
        ensures
            final(self).projects.wf(),
            final(self).projects.dir() == old(self).projects.dir(),
            final(self).urls == old(self).urls,
            match event {
                Event::Written(Ok(())) => {
                    &&& a is Scan
                    &&& final(self).projects@ == old(self).projects@
                    &&& final(self).projects.pending() == old(self).projects.pending()
                },
                Event::Written(Err(e)) => {
                    &&& a == Action::Done(Err(e))
                    &&& final(self).projects@ == old(self).projects@
                    &&& final(self).projects.pending() is None
                },
                Event::ScanFailed(e) => {
                    &&& a == Action::Done(Err(e))
                    &&& final(self).projects@ == old(self).projects@
                    &&& final(self).projects.pending() is None
                },
                Event::Scanned(files) => {
                    &&& a is Done
                    &&& final(self).projects.pending() is None
                    &&& match a->Done_0 {
                        Ok(()) => {
                            &&& all_parsed(files@)
                            &&& final(self).projects@ == reloaded(
                                parsed(files@),
                                old(self).projects.pending(),
                            )
                        },
                        Err(e) => {
                            &&& !all_parsed(files@)
                            &&& first_error(files@, e)
                            &&& final(self).projects@ == old(self).projects@
                        },
                    }
                },
            },
    {
        self.projects.resume(event)
    }
}

} // verus!
