//! The document store's logic: what a document directory's metadata
//! makes of it, the order of the document list, the folder list, new
//! notebook ids, and where things live under the data directory. Reading
//! and writing the files is the caller's part.

use vstd::prelude::*;
use crate::num::{digits, to_digits, digits_value, lemma_digits_value};
use crate::order::{Ranked, chars_lt, key_before, order_spec, stable_order, lemma_order_congruent, lemma_order_perm, lemma_chars_total, lemma_chars_transitive, lemma_chars_irreflexive};
use crate::strs::{chars_of, push_chars, string_of};

verus! {

/// What a document directory holds.
#[derive(Clone, Copy, PartialEq, Eq, Structural, Debug)]
pub enum DocKind {
    /// A reader bundle of PDF pages.
    Book,
    /// Blank pages of ink.
    Notebook,
}

/// One document of the home grid.
pub struct DocInfo {
    pub id: String,
    pub title: String,
    pub kind: DocKind,
    /// "" for the root.
    pub folder: String,
    /// PDF pages (0 for notebooks).
    pub pages: usize,
    /// Saved reading position, 0-based.
    pub pos: usize,
    pub seq_len: usize,
    /// When it was last opened (unix seconds), for ordering.
    pub opened: u64,
}

/// `DocInfo` with its text as characters.
pub struct DocInfoV {
    pub id: Seq<char>,
    pub title: Seq<char>,
    pub kind: DocKind,
    pub folder: Seq<char>,
    pub pages: usize,
    pub pos: usize,
    pub seq_len: usize,
    pub opened: u64,
}

impl View for DocInfo {
    type V = DocInfoV;

    open spec fn view(&self) -> DocInfoV {
        DocInfoV {
            id: self.id@,
            title: self.title@,
            kind: self.kind,
            folder: self.folder@,
            pages: self.pages,
            pos: self.pos,
            seq_len: self.seq_len,
            opened: self.opened,
        }
    }
}

impl DocInfo {
    /// A field-for-field copy.
    pub fn copy_info(&self) -> (d: DocInfo)
        ensures
            d@ == self@,
    {
        DocInfo {
            id: self.id.clone(),
            title: self.title.clone(),
            kind: self.kind,
            folder: self.folder.clone(),
            pages: self.pages,
            pos: self.pos,
            seq_len: self.seq_len,
            opened: self.opened,
        }
    }
}

pub open spec fn docs_view(ds: Seq<DocInfo>) -> Seq<DocInfoV> {
    ds.map(|_i, d: DocInfo| d@)
}

/* ---- reading a document's metadata --------------------------------------- */

/// The `kind` key naming a notebook.
pub open spec fn notebook_key() -> Seq<char> {
    seq!['n', 'o', 't', 'e', 'b', 'o', 'o', 'k']
}

/// The kind a document's metadata declares: a notebook by its `kind`
/// key, else a book when it has pages, else nothing usable.
pub open spec fn kind_of(kind_key: Option<Seq<char>>, pages: int) -> Option<DocKind> {
    if kind_key == Some(notebook_key()) {
        Some(DocKind::Notebook)
    } else if pages > 0 {
        Some(DocKind::Book)
    } else {
        None
    }
}

/// What the metadata files of one document directory say, as read.
pub struct DocMeta {
    /// `meta.json` `kind`, when it is a string.
    pub kind: Option<String>,
    /// `meta.json` `pages` (0 when absent).
    pub pages: usize,
    /// `meta.json` `title`, when it is a string.
    pub title: Option<String>,
    /// `meta.json` `folder`, when it is a string.
    pub folder: Option<String>,
    /// `state.json`: saved position, length of the `seq` array when there
    /// is one, and the file's modification time.
    pub state: Option<(usize, Option<usize>, u64)>,
}

pub open spec fn opt_view(o: Option<String>) -> Option<Seq<char>> {
    match o {
        Some(s) => Some(s@),
        None => None,
    }
}

/// The document a directory `id` with metadata `m` describes, if any.
pub open spec fn doc_info_spec(id: Seq<char>, m: DocMeta) -> Option<DocInfoV> {
    match kind_of(opt_view(m.kind), m.pages as int) {
        None => None,
        Some(kind) => {
            let default_len: int = if kind == DocKind::Notebook {
                1
            } else {
                m.pages as int
            };
            let (pos, seq_len, opened) = match m.state {
                Some((p, l, t)) => (
                    p as int,
                    match l {
                        Some(n) => n as int,
                        None => default_len,
                    },
                    t,
                ),
                None => (0, default_len, 0u64),
            };
            let last: int = if seq_len >= 1 {
                seq_len - 1
            } else {
                0
            };
            Some(
                DocInfoV {
                    id,
                    title: match m.title {
                        Some(t) => t@,
                        None => id,
                    },
                    kind,
                    folder: match m.folder {
                        Some(f) => f@,
                        None => Seq::empty(),
                    },
                    pages: m.pages,
                    pos: (if pos <= last {
                        pos
                    } else {
                        last
                    }) as usize,
                    seq_len: seq_len as usize,
                    opened,
                },
            )
        },
    }
}

/// The document of directory `id`, from its metadata; None when it is
/// neither a notebook nor a plausible book bundle.
pub fn doc_info(id: String, m: DocMeta) -> (d: Option<DocInfo>)
    ensures
        match d {
            Some(d) => doc_info_spec(id@, m) == Some(d@),
            None => doc_info_spec(id@, m) is None,
        },
{
    let nb = vec!['n', 'o', 't', 'e', 'b', 'o', 'o', 'k'];
    let is_nb = match &m.kind {
        Some(k) => {
            let cs = chars_of(k.as_str());
            let same = crate::text::has_prefix(&cs, &nb) && cs.len() == nb.len();
            proof {
                if same {
                    assert(cs@ =~= nb@);
                } else if cs@ == nb@ {
                    assert(cs@.subrange(0, nb@.len() as int) =~= nb@);
                }
            }
            same
        },
        None => false,
    };
    assert(nb@ == notebook_key());
    let kind = if is_nb {
        DocKind::Notebook
    } else if m.pages > 0 {
        DocKind::Book
    } else {
        return None;
    };
    let default_len: usize = match kind {
        DocKind::Notebook => 1,
        DocKind::Book => m.pages,
    };
    let (pos, seq_len, opened) = match m.state {
        Some((p, l, t)) => (
            p,
            match l {
                Some(n) => n,
                None => default_len,
            },
            t,
        ),
        None => (0, default_len, 0),
    };
    let last = if seq_len >= 1 {
        seq_len - 1
    } else {
        0
    };
    let title = match m.title {
        Some(t) => t,
        None => id.clone(),
    };
    let folder = match m.folder {
        Some(f) => f,
        None => String::new(),
    };
    Some(
        DocInfo {
            id,
            title,
            kind,
            folder,
            pages: m.pages,
            pos: if pos <= last {
                pos
            } else {
                last
            },
            seq_len,
            opened,
        },
    )
}

/* ---- the document list's order ------------------------------------------- */

/// Most recently opened first, then by title.
pub struct RecentKey {
    pub opened: u64,
    pub title: Vec<char>,
}

impl Ranked for RecentKey {
    open spec fn rank_lt(&self, other: &Self) -> bool {
        self.opened > other.opened || (self.opened == other.opened && chars_lt(
            self.title@,
            other.title@,
        ))
    }

    fn goes_before(&self, other: &Self) -> (b: bool) {
        if self.opened != other.opened {
            self.opened > other.opened
        } else {
            self.title.goes_before(&other.title)
        }
    }

    proof fn lemma_not_after(a: &Self, b: &Self, c: &Self) {
        lemma_chars_total(a.title@, b.title@);
        lemma_chars_total(b.title@, c.title@);
        lemma_chars_total(a.title@, c.title@);
        if a.opened == c.opened && chars_lt(a.title@, c.title@) {
            if chars_lt(c.title@, b.title@) {
                lemma_chars_transitive(a.title@, c.title@, b.title@);
            }
            if chars_lt(b.title@, a.title@) {
                lemma_chars_transitive(c.title@, a.title@, c.title@);
                lemma_chars_transitive(b.title@, a.title@, c.title@);
                lemma_chars_irreflexive(c.title@);
            }
        }
    }

    proof fn lemma_asymmetric(a: &Self, b: &Self) {
        if a.opened == b.opened && chars_lt(a.title@, b.title@) && chars_lt(b.title@, a.title@) {
            lemma_chars_transitive(a.title@, b.title@, a.title@);
            lemma_chars_irreflexive(a.title@);
        }
    }
}

/// The items of `ds` in the order `o`.
pub open spec fn reorder<T>(ds: Seq<T>, o: Seq<usize>) -> Seq<T> {
    o.map(|_i, k: usize| ds[k as int])
}

/// Does document `a` come before `b` in the list: opened more recently,
/// or at the same time with a title first in code-point order.
pub open spec fn recent_before(a: DocInfoV, b: DocInfoV) -> bool {
    a.opened > b.opened || (a.opened == b.opened && chars_lt(a.title, b.title))
}

pub open spec fn docs_before(ds: Seq<DocInfoV>) -> spec_fn(int, int) -> bool {
    |i: int, j: int| recent_before(ds[i], ds[j])
}

/// The document list in display order: most recently opened first, then
/// by title; the sort is stable.
pub fn sort_docs(ds: &Vec<DocInfo>) -> (r: Vec<DocInfo>)
    ensures
        docs_view(r@) == reorder(
            docs_view(ds@),
            order_spec(docs_before(docs_view(ds@)), ds@.len() as int),
        ),
{
    let mut keys: Vec<RecentKey> = Vec::new();
    let mut i: usize = 0;
    while i < ds.len()
        invariant
            i <= ds@.len(),
            keys@.len() == i,
            forall|k: int|
                0 <= k < i ==> (#[trigger] keys@[k]).opened == ds@[k].opened && keys@[k].title@
                    == ds@[k].title@,
        decreases ds.len() - i,
    {
        let t = chars_of(ds[i].title.as_str());
        keys.push(RecentKey { opened: ds[i].opened, title: t });
        i += 1;
    }
    let o = stable_order(&keys);
    let ghost n = ds@.len() as int;
    proof {
        lemma_order_congruent(key_before(keys@), docs_before(docs_view(ds@)), n);
        lemma_order_perm(key_before(keys@), n);
    }
    copy_in_order(ds, &o)
}

/// Recency-then-title is a strict total order on the documents' indices.
proof fn lemma_recent_total(ds: Seq<DocInfoV>)
    ensures
        crate::order::total_on(docs_before(ds), ds.len() as int),
{
    let lt = docs_before(ds);
    let n = ds.len() as int;
    assert forall|a: int, b: int| 0 <= a < n && 0 <= b < n && #[trigger] lt(a, b) implies !lt(b, a) by {
        let (x, y) = (ds[a].title, ds[b].title);
        if ds[a].opened == ds[b].opened && chars_lt(x, y) && chars_lt(y, x) {
            lemma_chars_transitive(x, y, x);
            lemma_chars_irreflexive(x);
        }
    }
    assert forall|a: int, b: int, c: int|
        0 <= a < n && 0 <= b < n && 0 <= c < n && !#[trigger] lt(a, b) && !#[trigger] lt(b, c) implies !lt(a, c) by {
        let (x, y, z) = (ds[a].title, ds[b].title, ds[c].title);
        lemma_chars_total(x, y);
        lemma_chars_total(y, z);
        if ds[a].opened == ds[c].opened && chars_lt(x, z) {
            if chars_lt(y, x) && chars_lt(z, y) {
                lemma_chars_transitive(z, y, x);
                lemma_chars_transitive(x, z, x);
                lemma_chars_irreflexive(x);
            } else if chars_lt(y, x) {
                lemma_chars_transitive(y, x, z);
                lemma_chars_irreflexive(z);
            } else if chars_lt(z, y) {
                lemma_chars_transitive(x, z, y);
                lemma_chars_irreflexive(x);
            } else {
                lemma_chars_irreflexive(x);
            }
        }
    }
}

/// The document list comes most recently opened first: in the sorted
/// list no document was opened later than one before it, and documents
/// opened at the same time come by title in code-point order. The list
/// holds as many documents as it was given, each taken from it.
pub proof fn lemma_sorted_docs_recent_first(ds: Seq<DocInfoV>)
    requires
        ds.len() <= usize::MAX,
    ensures
        ({
            let o = order_spec(docs_before(ds), ds.len() as int);
            let r = reorder(ds, o);
            &&& r.len() == ds.len()
            &&& forall|i: int| 0 <= i < r.len() ==> 0 <= #[trigger] o[i] < ds.len() && r[i] == ds[o[i] as int]
            &&& forall|i: int, j: int| #![trigger r[i], r[j]] 0 <= i < j < r.len() ==> r[i].opened >= r[j].opened
            &&& forall|i: int, j: int|
                #![trigger r[i], r[j]]
                0 <= i < j < r.len() && r[i].opened == r[j].opened ==> r[i].title == r[j].title || chars_lt(
                    r[i].title,
                    r[j].title,
                )
        }),
{
    let n = ds.len() as int;
    let lt = docs_before(ds);
    let o = order_spec(lt, n);
    let r = reorder(ds, o);
    lemma_order_perm(lt, n);
    lemma_recent_total(ds);
    crate::order::lemma_order_sorted(lt, n);
    assert forall|i: int, j: int| #![trigger r[i], r[j]] 0 <= i < j < r.len() implies r[i].opened >= r[j].opened && (
    r[i].opened == r[j].opened ==> r[i].title == r[j].title || chars_lt(r[i].title, r[j].title)) by {
        assert(r[i] == ds[o[i] as int] && r[j] == ds[o[j] as int]);
        assert(!lt(o[j] as int, o[i] as int));
        lemma_chars_total(r[i].title, r[j].title);
    }
}

/// The documents `ds` in the order they are listed.
pub fn copy_in_order(ds: &Vec<DocInfo>, o: &Vec<usize>) -> (r: Vec<DocInfo>)
    requires
        forall|i: int| 0 <= i < o@.len() ==> (#[trigger] o@[i]) < ds@.len(),
    ensures
        docs_view(r@) == reorder(docs_view(ds@), o@),
{
    let mut r: Vec<DocInfo> = Vec::new();
    let mut i: usize = 0;
    while i < o.len()
        invariant
            i <= o@.len(),
            forall|k: int| 0 <= k < o@.len() ==> (#[trigger] o@[k]) < ds@.len(),
            docs_view(r@) == reorder(docs_view(ds@), o@.take(i as int)),
        decreases o.len() - i,
    {
        let d = ds[o[i]].copy_info();
        let ghost prev = r@;
        r.push(d);
        proof {
            assert(r@ =~= prev.push(d));
            assert(docs_view(r@) =~= docs_view(prev).push(d@));
            assert(d@ == docs_view(ds@)[o@[i as int] as int]);
            assert(o@.take(i + 1) =~= o@.take(i as int).push(o@[i as int]));
            assert(reorder(docs_view(ds@), o@.take(i + 1)) =~= reorder(docs_view(ds@), o@.take(i as int)).push(docs_view(ds@)[o@[i as int] as int]));
        }
        i += 1;
    }
    assert(o@.take(o@.len() as int) =~= o@);
    r
}

/* ---- folders --------------------------------------------------------------- */

/// The folder list: the listed folders, then every non-empty document
/// folder not yet in it, in document order.
pub open spec fn merge_folders(listed: Seq<Seq<char>>, doc_folders: Seq<Seq<char>>) -> Seq<Seq<char>>
    decreases doc_folders.len(),
{
    if doc_folders.len() == 0 {
        listed
    } else {
        let m = merge_folders(listed, doc_folders.drop_last());
        let d = doc_folders.last();
        if d.len() > 0 && !m.contains(d) {
            m.push(d)
        } else {
            m
        }
    }
}

pub open spec fn text_before(names: Seq<Seq<char>>) -> spec_fn(int, int) -> bool {
    |i: int, j: int| chars_lt(names[i], names[j])
}

/// `names` sorted in code-point order (stably).
pub open spec fn sorted_names(names: Seq<Seq<char>>) -> Seq<Seq<char>> {
    reorder(names, order_spec(text_before(names), names.len() as int))
}

/// `names` in code-point order.
pub fn sort_names(names: &Vec<String>) -> (r: Vec<String>)
    ensures
        r.deep_view() == sorted_names(names.deep_view()),
{
    let mut keys: Vec<Vec<char>> = Vec::new();
    let mut i: usize = 0;
    while i < names.len()
        invariant
            i <= names@.len(),
            keys@.len() == i,
            forall|k: int| 0 <= k < i ==> (#[trigger] keys@[k])@ == names@[k]@,
        decreases names.len() - i,
    {
        keys.push(chars_of(names[i].as_str()));
        i += 1;
    }
    let o = stable_order(&keys);
    let ghost n = names@.len() as int;
    proof {
        assert(names.deep_view().len() == n);
        lemma_order_congruent(key_before(keys@), text_before(names.deep_view()), n);
        lemma_order_perm(key_before(keys@), n);
    }
    let mut r: Vec<String> = Vec::new();
    let mut k: usize = 0;
    while k < o.len()
        invariant
            k <= o@.len(),
            o@.len() == n,
            n == names@.len(),
            forall|q: int| 0 <= q < o@.len() ==> (#[trigger] o@[q]) < n,
            r@.len() == k,
            forall|q: int| 0 <= q < k ==> (#[trigger] r@[q])@ == names@[o@[q] as int]@,
        decreases o.len() - k,
    {
        r.push(names[o[k]].clone());
        k += 1;
    }
    proof {
        let rv = r.deep_view();
        let want = sorted_names(names.deep_view());
        assert(o@ == order_spec(text_before(names.deep_view()), n));
        assert(rv.len() == want.len());
        assert forall|q: int| 0 <= q < rv.len() implies rv[q] == want[q] by {
            assert(o@[q] < n);
        }
        assert(rv =~= want);
    }
    r
}

/// Is `name` among `names`?
fn has_name(names: &Vec<String>, name: &String) -> (b: bool)
    ensures
        b == names.deep_view().contains(name@),
{
    let mut i: usize = 0;
    while i < names.len()
        invariant
            i <= names@.len(),
            forall|k: int| 0 <= k < i ==> names.deep_view()[k] != name@,
        decreases names.len() - i,
    {
        if names[i] == *name {
            assert(names.deep_view()[i as int] == name@);
            return true;
        }
        i += 1;
    }
    false
}

/// The folders on the home screen: the listed ones unioned with the
/// folders documents name, sorted.
pub fn folders(listed: Vec<String>, doc_folders: &Vec<String>) -> (r: Vec<String>)
    ensures
        r.deep_view() == sorted_names(merge_folders(listed.deep_view(), doc_folders.deep_view())),
{
    let mut out = listed;
    let ghost l0 = out.deep_view();
    let mut i: usize = 0;
    while i < doc_folders.len()
        invariant
            i <= doc_folders@.len(),
            out.deep_view() == merge_folders(l0, doc_folders.deep_view().take(i as int)),
        decreases doc_folders.len() - i,
    {
        let d = &doc_folders[i];
        let ghost dfs = doc_folders.deep_view();
        assert(dfs.take(i + 1).drop_last() =~= dfs.take(i as int));
        assert(dfs.take(i + 1).last() == d@);
        if !d.as_str().is_empty() && !has_name(&out, d) {
            let ghost prev = out.deep_view();
            out.push(d.clone());
            assert(out.deep_view() =~= prev.push(d@));
        }
        i += 1;
    }
    assert(doc_folders.deep_view().take(doc_folders@.len() as int) =~= doc_folders.deep_view());
    sort_names(&out)
}

proof fn lemma_merge_members(listed: Seq<Seq<char>>, dfs: Seq<Seq<char>>)
    ensures
        forall|f: Seq<char>| listed.contains(f) ==> #[trigger] merge_folders(listed, dfs).contains(f),
        forall|i: int| 0 <= i < dfs.len() && dfs[i].len() > 0 ==> merge_folders(listed, dfs).contains(#[trigger] dfs[i]),
        forall|f: Seq<char>| #[trigger] merge_folders(listed, dfs).contains(f) ==> listed.contains(f) || (f.len() > 0 && dfs.contains(f)),
    decreases dfs.len(),
{
    if dfs.len() > 0 {
        let prev = dfs.drop_last();
        lemma_merge_members(listed, prev);
        let m = merge_folders(listed, prev);
        let d = dfs.last();
        assert forall|i: int| 0 <= i < dfs.len() && dfs[i].len() > 0 implies merge_folders(listed, dfs).contains(#[trigger] dfs[i]) by {
            if i < dfs.len() - 1 {
                assert(prev[i] == dfs[i]);
                assert(m.contains(prev[i]));
                if d.len() > 0 && !m.contains(d) {
                    let k = choose|k: int| 0 <= k < m.len() && m[k] == dfs[i];
                    assert(m.push(d)[k] == dfs[i]);
                }
            } else if !m.contains(d) {
                assert(m.push(d)[m.len() as int] == d);
            }
        }
        assert forall|f: Seq<char>| listed.contains(f) implies #[trigger] merge_folders(listed, dfs).contains(f) by {
            assert(m.contains(f));
            if d.len() > 0 && !m.contains(d) {
                let k = choose|k: int| 0 <= k < m.len() && m[k] == f;
                assert(m.push(d)[k] == f);
            }
        }
        assert forall|f: Seq<char>| #[trigger] merge_folders(listed, dfs).contains(f) implies listed.contains(f) || (f.len() > 0 && dfs.contains(f)) by {
            if d.len() > 0 && !m.contains(d) {
                let k = choose|k: int| 0 <= k < m.push(d).len() && m.push(d)[k] == f;
                if k == m.len() {
                    assert(dfs[dfs.len() - 1] == f);
                } else {
                    assert(m[k] == f);
                    assert(m.contains(f));
                    if !listed.contains(f) {
                        assert(prev.contains(f));
                        let j = choose|j: int| 0 <= j < prev.len() && prev[j] == f;
                        assert(dfs[j] == f);
                    }
                }
            } else {
                assert(m.contains(f));
                if !listed.contains(f) {
                    assert(prev.contains(f));
                    let j = choose|j: int| 0 <= j < prev.len() && prev[j] == f;
                    assert(dfs[j] == f);
                }
            }
        }
    }
}

/// The folder list holds exactly the listed folders and the non-empty
/// folders documents name (so folders without documents still show).
pub proof fn lemma_folders_members(listed: Seq<Seq<char>>, dfs: Seq<Seq<char>>)
    requires
        merge_folders(listed, dfs).len() <= usize::MAX,
    ensures
        forall|f: Seq<char>| listed.contains(f) ==> #[trigger] sorted_names(merge_folders(listed, dfs)).contains(f),
        forall|i: int| 0 <= i < dfs.len() && dfs[i].len() > 0 ==> sorted_names(merge_folders(listed, dfs)).contains(#[trigger] dfs[i]),
        forall|f: Seq<char>| #[trigger] sorted_names(merge_folders(listed, dfs)).contains(f) ==> listed.contains(f) || (f.len() > 0 && dfs.contains(f)),
{
    lemma_merge_members(listed, dfs);
    let m = merge_folders(listed, dfs);
    let o = order_spec(text_before(m), m.len() as int);
    lemma_order_perm(text_before(m), m.len() as int);
    let r = sorted_names(m);
    assert(r.len() == m.len());
    assert forall|f: Seq<char>| m.contains(f) implies r.contains(f) by {
        let k = choose|k: int| 0 <= k < m.len() && m[k] == f;
        crate::order::lemma_order_covers(text_before(m), m.len() as int, k);
        let q = choose|q: int| 0 <= q < o.len() && o[q] == k;
        assert(r[q] == f);
    }
    assert forall|f: Seq<char>| r.contains(f) implies m.contains(f) by {
        let q = choose|q: int| 0 <= q < r.len() && r[q] == f;
        assert(m[o[q] as int] == f);
    }
}

/* ---- ids and paths -------------------------------------------------------- */

/// `n` in base 36 (digits then lowercase letters).
pub fn base36(n: u64) -> (s: String)
    ensures
        s@ == digits(n as nat, 36),
{
    let d = to_digits(n, 36);
    string_of(&d, 0, d.len())
}

/// A base-36 id reads back as the number it was made from.
pub proof fn lemma_base36_roundtrip(n: u64)
    ensures
        digits_value(digits(n as nat, 36), 36) == n,
{
    lemma_digits_value(n as nat, 36);
}

/// The id a new notebook tries on its `n`-th attempt (from 1): "nb-"
/// and the creation time in base 36, then "-n" from the second attempt.
pub open spec fn notebook_id_spec(epoch: u64, n: u64) -> Seq<char> {
    "nb-"@ + digits(epoch as nat, 36) + if n <= 1 {
        Seq::empty()
    } else {
        seq!['-'] + digits(n as nat, 10)
    }
}

pub fn notebook_id(epoch: u64, n: u64) -> (id: String)
    ensures
        id@ == notebook_id_spec(epoch, n),
{
    let mut v: Vec<char> = chars_of("nb-");
    v.extend_from_slice(&to_digits(epoch, 36));
    if n > 1 {
        v.push('-');
        v.extend_from_slice(&crate::num::decimal(n));
    }
    assert(v@ =~= notebook_id_spec(epoch, n));
    string_of(&v, 0, v.len())
}

/// The id a duplicate of `id` tries on its `n`-th attempt (from 1):
/// "<id>-copy", then "<id>-copy-n".
pub open spec fn copy_id_spec(id: Seq<char>, n: u64) -> Seq<char> {
    id + "-copy"@ + if n <= 1 {
        Seq::empty()
    } else {
        seq!['-'] + digits(n as nat, 10)
    }
}

pub fn copy_id(id: &str, n: u64) -> (c: String)
    ensures
        c@ == copy_id_spec(id@, n),
{
    let mut v: Vec<char> = chars_of(id);
    v.extend_from_slice(&chars_of("-copy"));
    if n > 1 {
        v.push('-');
        v.extend_from_slice(&crate::num::decimal(n));
    }
    assert(v@ =~= copy_id_spec(id@, n));
    string_of(&v, 0, v.len())
}

/// A duplicate's title: the original's (its id when it has none) with
/// " copy".
pub fn copy_title(title: Option<&str>, id: &str) -> (t: String)
    ensures
        t@ == match title {
            Some(s) => s@,
            None => id@,
        } + " copy"@,
{
    let mut v: Vec<char> = match title {
        Some(s) => chars_of(s),
        None => chars_of(id),
    };
    v.extend_from_slice(&chars_of(" copy"));
    string_of(&v, 0, v.len())
}

/// `dir` followed by `/` and `name`.
pub open spec fn join_path(dir: Seq<char>, name: Seq<char>) -> Seq<char> {
    dir + seq!['/'] + name
}

/// `dir/name` as a string.
pub fn path_in(dir: &str, name: &[char]) -> (p: String)
    ensures
        p@ == join_path(dir@, name@),
{
    let mut p = String::new();
    let d = chars_of(dir);
    push_chars(&mut p, &d);
    push_chars(&mut p, &['/']);
    push_chars(&mut p, name);
    p
}

/// Where the documents live under the data directory.
pub fn docs_dir(data_dir: &str) -> (p: String)
    ensures
        p@ == join_path(data_dir@, seq!['d', 'o', 'c', 's']),
{
    let name = ['d', 'o', 'c', 's'];
    path_in(data_dir, &name)
}

/// The folder list file under the data directory.
pub fn folders_path(data_dir: &str) -> (p: String)
    ensures
        p@ == join_path(
            data_dir@,
            seq!['f', 'o', 'l', 'd', 'e', 'r', 's', '.', 'j', 's', 'o', 'n'],
        ),
{
    let name = ['f', 'o', 'l', 'd', 'e', 'r', 's', '.', 'j', 's', 'o', 'n'];
    path_in(data_dir, &name)
}

} // verus!
