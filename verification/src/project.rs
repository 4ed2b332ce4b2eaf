//! Projects of the coding companion: one directory per project under the
//! data root, holding its metadata, the assistant's summary of the code
//! base, and the project's ink pages. This is the naming, validation and
//! ordering logic; reading the directories is the caller's part.

use vstd::prelude::*;
use crate::num::{digits, zero_pad, decimal_padded};
use crate::order::{Ranked, chars_lt, key_before, order_spec, stable_order, lemma_order_congruent, lemma_order_perm, lemma_chars_total, lemma_chars_transitive, lemma_chars_irreflexive};
use crate::store::{join_path, path_in, reorder};
use crate::strs::{chars_of, push_chars, string_of};
use crate::text::{is_ascii_alnum, is_ws, trim, trim_range, trim_start};
use crate::wrap::{split_on, split_chars};
use crate::calendar::{valid_date, day_number, date_text, ymd};

verus! {

/// The always-present scratch project.
pub open spec fn notes_slug() -> Seq<char> {
    seq!['n', 'o', 't', 'e', 's']
}

pub struct Project {
    /// Directory name here and repository directory name remotely.
    pub slug: String,
    /// Display name (the metadata's name, else the slug).
    pub name: String,
    /// Remote URL; empty for local-only projects.
    pub url: String,
    /// One-liner for the sidebar.
    pub summary: String,
    /// Ink pages on disk.
    pub pages: usize,
    /// Most recent activity (unix seconds).
    pub mtime: i64,
}

/* ---- paths ----------------------------------------------------------------- */

pub open spec fn projects_dir_spec(root: Seq<char>) -> Seq<char> {
    join_path(root, "projects"@)
}

pub open spec fn dir_of_spec(root: Seq<char>, slug: Seq<char>) -> Seq<char> {
    join_path(projects_dir_spec(root), slug)
}

pub open spec fn pages_dir_spec(root: Seq<char>, slug: Seq<char>) -> Seq<char> {
    join_path(dir_of_spec(root, slug), "pages"@)
}

/// The projects directory under the data root.
pub fn projects_dir(root: &str) -> (p: String)
    ensures
        p@ == projects_dir_spec(root@),
{
    path_in(root, &chars_of("projects"))
}

/// A project's directory.
pub fn dir_of(root: &str, slug: &str) -> (p: String)
    ensures
        p@ == dir_of_spec(root@, slug@),
{
    let d = projects_dir(root);
    path_in(d.as_str(), &chars_of(slug))
}

/// A project's ink pages directory.
pub fn pages_dir(root: &str, slug: &str) -> (p: String)
    ensures
        p@ == pages_dir_spec(root@, slug@),
{
    let d = dir_of(root, slug);
    path_in(d.as_str(), &chars_of("pages"))
}

/// A project's summary file.
pub fn summary_path(root: &str, slug: &str) -> (p: String)
    ensures
        p@ == join_path(dir_of_spec(root@, slug@), "SUMMARY.md"@),
{
    let d = dir_of(root, slug);
    path_in(d.as_str(), &chars_of("SUMMARY.md"))
}

/// `<prefix><NNNN><suffix>` in the pages directory, NNNN being the
/// 1-based page number zero-padded to four digits.
pub open spec fn page_file(root: Seq<char>, slug: Seq<char>, prefix: Seq<char>, i: int, suffix: Seq<char>) -> Seq<char> {
    join_path(pages_dir_spec(root, slug), prefix + zero_pad(digits((i + 1) as nat, 10), 4) + suffix)
}

fn page_file_exec(root: &str, slug: &str, prefix: &str, i: usize, suffix: &str) -> (p: String)
    requires
        i < usize::MAX,
    ensures
        p@ == page_file(root@, slug@, prefix@, i as int, suffix@),
{
    let d = pages_dir(root, slug);
    let mut name: Vec<char> = chars_of(prefix);
    let num = decimal_padded((i + 1) as u64, 4);
    name.extend_from_slice(&num);
    let suf = chars_of(suffix);
    name.extend_from_slice(&suf);
    path_in(d.as_str(), &name)
}

/// Ink page `i` (0-based) of a project.
pub fn page_path(root: &str, slug: &str, i: usize) -> (p: String)
    requires
        i < usize::MAX,
    ensures
        p@ == page_file(root@, slug@, "page-"@, i as int, ".json"@),
{
    page_file_exec(root, slug, "page-", i, ".json")
}

/// The cached render of page `i` (0-based) of a project.
pub fn render_path(root: &str, slug: &str, i: usize) -> (p: String)
    requires
        i < usize::MAX,
    ensures
        p@ == page_file(root@, slug@, "render-"@, i as int, ".skr"@),
{
    page_file_exec(root, slug, "render-", i, ".skr")
}

/* ---- slugs ----------------------------------------------------------------- */

pub open spec fn slug_char(c: char) -> bool {
    is_ascii_alnum(c) || c == '-' || c == '_' || c == '.'
}

/// A slug is a plain directory name, never a path: 1 to 64 characters
/// from `[A-Za-z0-9._-]`, not starting with a dot.
pub open spec fn valid_slug_spec(s: Seq<char>) -> bool {
    &&& 0 < s.len() <= 64
    &&& s[0] != '.'
    &&& forall|i: int| 0 <= i < s.len() ==> slug_char(#[trigger] s[i])
}

pub fn valid_slug(s: &str) -> (b: bool)
    ensures
        b == valid_slug_spec(s@),
{
    let cs = chars_of(s);
    if cs.len() == 0 || cs.len() > 64 || cs[0] == '.' {
        return false;
    }
    let mut i: usize = 0;
    while i < cs.len()
        invariant
            i <= cs@.len(),
            cs@ == s@,
            forall|k: int| 0 <= k < i ==> slug_char(#[trigger] cs@[k]),
        decreases cs.len() - i,
    {
        let c = cs[i];
        let ok = ('0' <= c && c <= '9') || ('a' <= c && c <= 'z') || ('A' <= c && c <= 'Z') || c
            == '-' || c == '_' || c == '.';
        if !ok {
            assert(!slug_char(cs@[i as int]));
            return false;
        }
        i += 1;
    }
    true
}

/* ---- one project ----------------------------------------------------------- */

/// What a project's metadata file says, as read.
pub struct ProjectMeta {
    pub name: Option<String>,
    pub url: Option<String>,
    pub summary: Option<String>,
}

pub open spec fn max3(a: i64, b: i64, c: i64) -> i64 {
    let ab = if a >= b {
        a
    } else {
        b
    };
    if ab >= c {
        ab
    } else {
        c
    }
}

/// A project from its slug, metadata, page count and the modification
/// times of its metadata, pages directory and summary: a missing or empty
/// name shows the slug, and its activity is the newest of the three.
pub fn get(slug: &str, meta: ProjectMeta, pages: usize, mtimes: (i64, i64, i64)) -> (p: Project)
    ensures
        p.slug@ == slug@,
        p.name@ == match meta.name {
            Some(n) => if n@.len() > 0 {
                n@
            } else {
                slug@
            },
            None => slug@,
        },
        p.url@ == match meta.url {
            Some(u) => u@,
            None => Seq::<char>::empty(),
        },
        p.summary@ == match meta.summary {
            Some(s) => s@,
            None => Seq::<char>::empty(),
        },
        p.pages == pages,
        p.mtime == max3(mtimes.0, mtimes.1, mtimes.2),
{
    let cs = chars_of(slug);
    let name = match meta.name {
        Some(n) => if !n.as_str().is_empty() {
            n
        } else {
            string_of(&cs, 0, cs.len())
        },
        None => string_of(&cs, 0, cs.len()),
    };
    assert(cs@.subrange(0, cs@.len() as int) =~= cs@);
    let url = match meta.url {
        Some(u) => u,
        None => String::new(),
    };
    let summary = match meta.summary {
        Some(s) => s,
        None => String::new(),
    };
    let ab = if mtimes.0 >= mtimes.1 {
        mtimes.0
    } else {
        mtimes.1
    };
    let m = if ab >= mtimes.2 {
        ab
    } else {
        mtimes.2
    };
    Project { slug: string_of(&cs, 0, cs.len()), name, url, summary, pages, mtime: m }
}

/* ---- the project list -------------------------------------------------------- */

/// Directory entries that are projects: directories with a valid slug,
/// other than the notes pad (which is always listed first).
pub open spec fn repo_slugs_spec(entries: Seq<(Seq<char>, bool)>) -> Seq<Seq<char>>
    decreases entries.len(),
{
    if entries.len() == 0 {
        Seq::empty()
    } else {
        let rest = repo_slugs_spec(entries.drop_last());
        let (slug, is_dir) = entries.last();
        if slug != notes_slug() && valid_slug_spec(slug) && is_dir {
            rest.push(slug)
        } else {
            rest
        }
    }
}

pub open spec fn entries_view(es: Seq<(String, bool)>) -> Seq<(Seq<char>, bool)> {
    es.map_values(|e: (String, bool)| (e.0@, e.1))
}

/// The slugs of the project directories among the entries of the projects
/// directory (name, is a directory).
pub fn repo_slugs(entries: &Vec<(String, bool)>) -> (r: Vec<String>)
    ensures
        r.deep_view() == repo_slugs_spec(entries_view(entries@)),
{
    let mut r: Vec<String> = Vec::new();
    let notes = vec!['n', 'o', 't', 'e', 's'];
    assert(notes@ =~= notes_slug());
    let mut i: usize = 0;
    while i < entries.len()
        invariant
            i <= entries@.len(),
            notes@ == notes_slug(),
            r.deep_view() == repo_slugs_spec(entries_view(entries@).take(i as int)),
        decreases entries.len() - i,
    {
        let e = &entries[i];
        let ghost ev = entries_view(entries@);
        assert(ev.take(i + 1).drop_last() =~= ev.take(i as int));
        assert(ev.take(i + 1).last() == (e.0@, e.1));
        let cs = chars_of(e.0.as_str());
        let is_notes = cs.len() == notes.len() && crate::text::matches_at(&cs, 0, &notes);
        proof {
            if is_notes {
                assert(cs@ =~= notes_slug());
            } else if cs@ == notes_slug() {
                assert(cs@.subrange(0, 5) =~= notes@);
            }
        }
        if !is_notes && valid_slug(e.0.as_str()) && e.1 {
            crate::wrap::push_line(&mut r, e.0.clone());
        }
        i += 1;
    }
    assert(entries_view(entries@).take(entries@.len() as int) =~= entries_view(entries@));
    r
}

/// Newest activity first, then by slug.
pub struct ActivityKey {
    pub mtime: i64,
    pub slug: Vec<char>,
}

impl Ranked for ActivityKey {
    open spec fn rank_lt(&self, other: &Self) -> bool {
        self.mtime > other.mtime || (self.mtime == other.mtime && chars_lt(self.slug@, other.slug@))
    }

    fn goes_before(&self, other: &Self) -> (b: bool) {
        if self.mtime != other.mtime {
            self.mtime > other.mtime
        } else {
            self.slug.goes_before(&other.slug)
        }
    }

    proof fn lemma_not_after(a: &Self, b: &Self, c: &Self) {
        lemma_chars_total(a.slug@, b.slug@);
        lemma_chars_total(b.slug@, c.slug@);
        lemma_chars_total(a.slug@, c.slug@);
        if a.mtime == c.mtime && chars_lt(a.slug@, c.slug@) {
            if chars_lt(c.slug@, b.slug@) {
                lemma_chars_transitive(a.slug@, c.slug@, b.slug@);
            }
            if chars_lt(b.slug@, a.slug@) {
                lemma_chars_transitive(c.slug@, a.slug@, c.slug@);
                lemma_chars_transitive(b.slug@, a.slug@, c.slug@);
                lemma_chars_irreflexive(c.slug@);
            }
        }
    }

    proof fn lemma_asymmetric(a: &Self, b: &Self) {
        if a.mtime == b.mtime && chars_lt(a.slug@, b.slug@) && chars_lt(b.slug@, a.slug@) {
            lemma_chars_transitive(a.slug@, b.slug@, a.slug@);
            lemma_chars_irreflexive(a.slug@);
        }
    }
}

/// What the project list shows of a project.
pub struct ProjectV {
    pub slug: Seq<char>,
    pub name: Seq<char>,
    pub url: Seq<char>,
    pub summary: Seq<char>,
    pub pages: usize,
    pub mtime: i64,
}

impl View for Project {
    type V = ProjectV;

    open spec fn view(&self) -> ProjectV {
        ProjectV {
            slug: self.slug@,
            name: self.name@,
            url: self.url@,
            summary: self.summary@,
            pages: self.pages,
            mtime: self.mtime,
        }
    }
}

pub open spec fn projects_view(ps: Seq<Project>) -> Seq<ProjectV> {
    ps.map_values(|p: Project| p@)
}

pub open spec fn activity_before(ps: Seq<ProjectV>) -> spec_fn(int, int) -> bool {
    |i: int, j: int|
        ps[i].mtime > ps[j].mtime || (ps[i].mtime == ps[j].mtime && chars_lt(ps[i].slug, ps[j].slug))
}

impl Project {
    pub fn copy_project(&self) -> (p: Project)
        ensures
            p@ == self@,
    {
        Project {
            slug: self.slug.clone(),
            name: self.name.clone(),
            url: self.url.clone(),
            summary: self.summary.clone(),
            pages: self.pages,
            mtime: self.mtime,
        }
    }
}

/// All projects: the notes pad first, then the rest, newest activity
/// first (ties by slug).
pub fn scan(notes: Project, repos: &Vec<Project>) -> (r: Vec<Project>)
    ensures
        projects_view(r@) == seq![notes@] + reorder(
            projects_view(repos@),
            order_spec(activity_before(projects_view(repos@)), repos@.len() as int),
        ),
{
    let mut keys: Vec<ActivityKey> = Vec::new();
    let mut i: usize = 0;
    while i < repos.len()
        invariant
            i <= repos@.len(),
            keys@.len() == i,
            forall|k: int|
                0 <= k < i ==> (#[trigger] keys@[k]).mtime == repos@[k].mtime && keys@[k].slug@
                    == repos@[k].slug@,
        decreases repos.len() - i,
    {
        keys.push(ActivityKey { mtime: repos[i].mtime, slug: chars_of(repos[i].slug.as_str()) });
        i += 1;
    }
    let o = stable_order(&keys);
    let ghost n = repos@.len() as int;
    proof {
        lemma_order_congruent(key_before(keys@), activity_before(projects_view(repos@)), n);
        lemma_order_perm(key_before(keys@), n);
    }
    let mut r: Vec<Project> = Vec::new();
    let ghost first = notes@;
    r.push(notes);
    let mut k: usize = 0;
    while k < o.len()
        invariant
            k <= o@.len(),
            o@.len() == n,
            n == repos@.len(),
            forall|q: int| 0 <= q < o@.len() ==> (#[trigger] o@[q]) < n,
            projects_view(r@) == seq![first] + reorder(projects_view(repos@), o@.take(k as int)),
        decreases o.len() - k,
    {
        let p = repos[o[k]].copy_project();
        let ghost prev = projects_view(r@);
        r.push(p);
        proof {
            assert(projects_view(r@) =~= prev.push(p@));
            assert(o@.take(k + 1) =~= o@.take(k as int).push(o@[k as int]));
            assert(reorder(projects_view(repos@), o@.take(k + 1)) =~= reorder(
                projects_view(repos@),
                o@.take(k as int),
            ).push(projects_view(repos@)[o@[k as int] as int]));
        }
        k += 1;
    }
    assert(o@.take(o@.len() as int) =~= o@);
    r
}

/* ---- the summary's title ------------------------------------------------------- */

/// A line without the `\r` of a `\r\n` ending.
pub open spec fn strip_cr(l: Seq<char>) -> Seq<char> {
    if l.len() > 0 && l.last() == '\r' {
        l.drop_last()
    } else {
        l
    }
}

/// The lines of a text (like `str::lines`): split at `\n`, a final line
/// ending adds no empty line, and `\r\n` endings lose their `\r`.
pub open spec fn lines_of(s: Seq<char>) -> Seq<Seq<char>> {
    let p = split_on(s, '\n');
    let n = if s.len() == 0 || s.last() == '\n' {
        p.len() - 1
    } else {
        p.len() as int
    };
    Seq::new(n as nat, |i: int| if i < p.len() - 1 { strip_cr(p[i]) } else { p[i] })
}

/// `s` without leading and trailing double quotes.
pub open spec fn trim_quotes(s: Seq<char>) -> Seq<char>
    decreases s.len(),
{
    if s.len() > 0 && s[0] == '"' {
        trim_quotes(s.drop_first())
    } else if s.len() > 0 && s.last() == '"' {
        trim_quotes(s.drop_last())
    } else {
        s
    }
}

/// `s` without its leading `#`s.
pub open spec fn trim_hashes(s: Seq<char>) -> Seq<char>
    decreases s.len(),
{
    if s.len() > 0 && s[0] == '#' {
        trim_hashes(s.drop_first())
    } else {
        s
    }
}

/// The first non-blank line at or after `k`, as a heading's text.
pub open spec fn first_heading(ls: Seq<Seq<char>>, k: int) -> Option<Seq<char>>
    decreases ls.len() - k,
{
    if k < 0 || k >= ls.len() {
        None
    } else if trim(ls[k]).len() > 0 {
        Some(trim(trim_hashes(ls[k])))
    } else {
        first_heading(ls, k + 1)
    }
}

/// Inside YAML frontmatter from line `k`: a `title:` line gives the
/// title; the closing `---` hands over to the first non-blank line after
/// it.
pub open spec fn front_title(ls: Seq<Seq<char>>, k: int) -> Option<Seq<char>>
    decreases ls.len() - k,
{
    if k < 0 || k >= ls.len() {
        None
    } else if trim(ls[k]) == "---"@ {
        first_heading(ls, k + 1)
    } else if ls[k].len() >= 6 && ls[k].take(6) == "title:"@ {
        Some(trim_quotes(trim(ls[k].skip(6))))
    } else {
        front_title(ls, k + 1)
    }
}

/// A summary's title: the frontmatter `title:` if there is one, else the
/// first non-blank line without its heading marks.
pub open spec fn title_spec(s: Seq<char>) -> Option<Seq<char>> {
    let ls = lines_of(s);
    if s.len() >= 3 && s.take(3) == "---"@ {
        front_title(ls, 1)
    } else {
        first_heading(ls, 0)
    }
}

/// The lines of `s`.
pub fn lines(s: &[char]) -> (ls: Vec<Vec<char>>)
    ensures
        ls.deep_view() == lines_of(s@),
{
    let p = split_chars(s, '\n');
    let ghost pv = p.deep_view();
    proof {
        crate::wrap::lemma_split_nonempty(s@, '\n');
    }
    let n = if s.len() == 0 || s[s.len() - 1] == '\n' {
        p.len() - 1
    } else {
        p.len()
    };
    let mut ls: Vec<Vec<char>> = Vec::new();
    let mut i: usize = 0;
    while i < n
        invariant
            i <= n <= p@.len(),
            pv == p.deep_view(),
            pv.len() == p@.len(),
            ls.deep_view() == Seq::new(
                i as nat,
                |k: int|
                    if k < pv.len() - 1 {
                        strip_cr(pv[k])
                    } else {
                        pv[k]
                    },
            ),
        decreases n - i,
    {
        let piece = &p[i];
        assert(piece@ =~= pv[i as int]);
        let keep_all = i + 1 == p.len() || piece.len() == 0 || piece[piece.len() - 1] != '\r';
        let line = if keep_all {
            crate::strs::copy_chars(piece)
        } else {
            let mut l = crate::strs::copy_chars(piece);
            l.pop();
            l
        };
        proof {
            if !keep_all {
                assert(line@ =~= strip_cr(pv[i as int]));
            }
        }
        let ghost prev = ls.deep_view();
        crate::wrap::push_piece(&mut ls, line);
        assert(ls.deep_view() =~= Seq::new(
            (i + 1) as nat,
            |k: int|
                if k < pv.len() - 1 {
                    strip_cr(pv[k])
                } else {
                    pv[k]
                },
        ));
        i += 1;
    }
    ls
}

/// `s[from..to]` trimmed, as a new vector.
fn trimmed(l: &Vec<char>, from: usize) -> (t: Vec<char>)
    requires
        from <= l@.len(),
    ensures
        t@ == trim(l@.skip(from as int)),
{
    let (a, b) = trim_range(l, from, l.len());
    assert(l@.subrange(from as int, l@.len() as int) =~= l@.skip(from as int));
    vstd::slice::slice_to_vec(vstd::slice::slice_subrange(l.as_slice(), a, b))
}

fn is_dashes(t: &Vec<char>) -> (b: bool)
    ensures
        b == (t@ == "---"@),
{
    proof {
        reveal_strlit("---");
    }
    let b = t.len() == 3 && t[0] == '-' && t[1] == '-' && t[2] == '-';
    proof {
        if b {
            assert(t@ =~= "---"@);
        }
    }
    b
}

fn starts_title(l: &Vec<char>) -> (b: bool)
    ensures
        b == (l@.len() >= 6 && l@.take(6) == "title:"@),
{
    proof {
        reveal_strlit("title:");
    }
    let b = l.len() >= 6 && l[0] == 't' && l[1] == 'i' && l[2] == 't' && l[3] == 'l' && l[4] == 'e'
        && l[5] == ':';
    proof {
        if b {
            assert(l@.take(6) =~= "title:"@);
        } else if l@.len() >= 6 && l@.take(6) == "title:"@ {
            assert(l@.take(6)[0] == 't' && l@.take(6)[1] == 'i' && l@.take(6)[2] == 't');
            assert(l@.take(6)[3] == 'l' && l@.take(6)[4] == 'e' && l@.take(6)[5] == ':');
        }
    }
    b
}

fn strip_quotes(t: &Vec<char>) -> (r: Vec<char>)
    ensures
        r@ == trim_quotes(t@),
{
    let mut a: usize = 0;
    let mut b: usize = t.len();
    assert(t@.subrange(0, t@.len() as int) =~= t@);
    while a < b && (t[a] == '"' || t[b - 1] == '"')
        invariant
            a <= b <= t@.len(),
            trim_quotes(t@) == trim_quotes(t@.subrange(a as int, b as int)),
        decreases b - a,
    {
        let ghost sub = t@.subrange(a as int, b as int);
        if t[a] == '"' {
            assert(sub.drop_first() =~= t@.subrange(a + 1, b as int));
            a += 1;
        } else {
            assert(sub.drop_last() =~= t@.subrange(a as int, b - 1));
            b -= 1;
        }
    }
    assert(t@.subrange(0, t@.len() as int) =~= t@);
    vstd::slice::slice_to_vec(vstd::slice::slice_subrange(t.as_slice(), a, b))
}

fn heading_of(l: &Vec<char>) -> (r: Vec<char>)
    ensures
        r@ == trim(trim_hashes(l@)),
{
    let mut a: usize = 0;
    assert(l@.skip(0) =~= l@);
    while a < l.len() && l[a] == '#'
        invariant
            a <= l@.len(),
            trim_hashes(l@) == trim_hashes(l@.skip(a as int)),
        decreases l.len() - a,
    {
        assert(l@.skip(a as int).drop_first() =~= l@.skip(a + 1));
        a += 1;
    }
    assert(trim_hashes(l@.skip(a as int)) == l@.skip(a as int));
    trimmed(l, a)
}

fn first_heading_exec(ls: &Vec<Vec<char>>, k: usize) -> (r: Option<Vec<char>>)
    ensures
        match r {
            Some(t) => first_heading(ls.deep_view(), k as int) == Some(t@),
            None => first_heading(ls.deep_view(), k as int) is None,
        },
{
    let ghost lv = ls.deep_view();
    let mut j = k;
    while j < ls.len()
        invariant
            k <= j,
            lv == ls.deep_view(),
            first_heading(lv, k as int) == first_heading(lv, j as int),
        decreases ls.len() - j,
    {
        assert(lv[j as int] =~= ls@[j as int]@);
        assert(ls@[j as int]@.skip(0) =~= ls@[j as int]@);
        let t = trimmed(&ls[j], 0);
        if t.len() > 0 {
            return Some(heading_of(&ls[j]));
        }
        j += 1;
    }
    None
}

/// A summary's title: the YAML frontmatter `title:` if present, else the
/// first non-blank line without its heading marks.
pub fn title_of(s: &str) -> (r: Option<String>)
    ensures
        match r {
            Some(t) => title_spec(s@) == Some(t@),
            None => title_spec(s@) is None,
        },
{
    let cs = chars_of(s);
    let ls = lines(&cs);
    let ghost lv = ls.deep_view();
    proof {
        reveal_strlit("---");
    }
    let front = cs.len() >= 3 && cs[0] == '-' && cs[1] == '-' && cs[2] == '-';
    proof {
        if front {
            assert(cs@.take(3) =~= "---"@);
        } else if cs@.len() >= 3 && cs@.take(3) == "---"@ {
            assert(cs@.take(3)[0] == '-' && cs@.take(3)[1] == '-' && cs@.take(3)[2] == '-');
        }
    }
    let found = if front {
        let mut k: usize = 1;
        let mut res: Option<Vec<char>> = None;
        let mut done = false;
        while !done && k < ls.len()
            invariant
                1 <= k,
                lv == ls.deep_view(),
                !done ==> front_title(lv, 1) == front_title(lv, k as int),
                !done ==> res is None,
                done ==> match res {
                    Some(t) => front_title(lv, 1) == Some(t@),
                    None => front_title(lv, 1) is None,
                },
            decreases ls.len() - k + if done {
                0int
            } else {
                1int
            },
        {
            let l = &ls[k];
            assert(lv[k as int] =~= l@);
            assert(l@.skip(0) =~= l@);
            let t = trimmed(l, 0);
            if is_dashes(&t) {
                res = first_heading_exec(&ls, k + 1);
                done = true;
            } else if starts_title(l) {
                let v = trimmed(l, 6);
                res = Some(strip_quotes(&v));
                done = true;
            } else {
                k += 1;
            }
        }
        res
    } else {
        first_heading_exec(&ls, 0)
    };
    assert(lv == lines_of(s@));
    match found {
        Some(t) => {
            assert(title_spec(s@) == Some(t@));
            Some(string_of(&t, 0, t.len()))
        },
        None => None,
    }
}

/* ---- the docs reader's list ------------------------------------------------- */

/// One project summary in the docs reader.
pub struct DocItem {
    pub slug: String,
    pub title: String,
    /// "yyyy-mm-dd" of the summary's modification time.
    pub date: String,
    /// Size in KiB, rounded up.
    pub kb: u64,
}

/// The item for project `p` whose summary file holds `text` (None when
/// it could not be read), modified at `mtime`, of `size` bytes: titled by
/// the summary's own title when it has a non-empty one, else the
/// project's name.
pub fn doc_item(p: &Project, text: Option<String>, mtime: i64, size: u64) -> (d: DocItem)
    ensures
        d.slug@ == p.slug@,
        d.title@ == match text {
            Some(t) => match title_spec(t@) {
                Some(tt) => if tt.len() > 0 {
                    tt
                } else {
                    p.name@
                },
                None => p.name@,
            },
            None => p.name@,
        },
        exists|y: int, m: int, dd: int|
            #![trigger date_text(y, m, dd)]
            valid_date(y, m, dd) && day_number(y, m, dd) == mtime as int / 86400 && d.date@
                == date_text(y, m, dd),
        d.kb == (size as int + 1023) / 1024,
{
    let title = match text {
        Some(t) => match title_of(t.as_str()) {
            Some(tt) => if !tt.as_str().is_empty() {
                tt
            } else {
                p.name.clone()
            },
            None => p.name.clone(),
        },
        None => p.name.clone(),
    };
    let kb = size / 1024 + if size % 1024 == 0 {
        0
    } else {
        1
    };
    DocItem { slug: p.slug.clone(), title, date: ymd(mtime), kb }
}

/// Newest first.
pub struct Newest(pub i64);

impl Ranked for Newest {
    open spec fn rank_lt(&self, other: &Self) -> bool {
        self.0 > other.0
    }

    fn goes_before(&self, other: &Self) -> (b: bool) {
        self.0 > other.0
    }

    proof fn lemma_not_after(a: &Self, b: &Self, c: &Self) {
    }

    proof fn lemma_asymmetric(a: &Self, b: &Self) {
    }
}

pub open spec fn newest_before(ms: Seq<i64>) -> spec_fn(int, int) -> bool {
    |i: int, j: int| ms[i] > ms[j]
}

/// The docs reader's list: the items, most recently modified first (the
/// sort is stable).
pub fn docs_order(items: Vec<(i64, DocItem)>) -> (r: Vec<DocItem>)
    ensures
        r@.len() == items@.len(),
        ({
            let ms = items@.map_values(|it: (i64, DocItem)| it.0);
            let o = order_spec(newest_before(ms), items@.len() as int);
            forall|k: int| 0 <= k < r@.len() ==> (#[trigger] r@[k])@ == items@[o[k] as int].1@
        }),
{
    let mut keys: Vec<Newest> = Vec::new();
    let mut i: usize = 0;
    while i < items.len()
        invariant
            i <= items@.len(),
            keys@.len() == i,
            forall|k: int| 0 <= k < i ==> (#[trigger] keys@[k]).0 == items@[k].0,
        decreases items.len() - i,
    {
        keys.push(Newest(items[i].0));
        i += 1;
    }
    let o = stable_order(&keys);
    let ghost n = items@.len() as int;
    let ghost ms = items@.map_values(|it: (i64, DocItem)| it.0);
    proof {
        lemma_order_congruent(key_before(keys@), newest_before(ms), n);
        lemma_order_perm(key_before(keys@), n);
    }
    let mut r: Vec<DocItem> = Vec::new();
    let mut k: usize = 0;
    while k < o.len()
        invariant
            k <= o@.len(),
            o@.len() == n,
            n == items@.len(),
            o@ == order_spec(newest_before(ms), n),
            forall|q: int| 0 <= q < o@.len() ==> (#[trigger] o@[q]) < n,
            r@.len() == k,
            forall|q: int| 0 <= q < k ==> (#[trigger] r@[q])@ == items@[o@[q] as int].1@,
        decreases o.len() - k,
    {
        r.push(items[o[k]].1.copy_item());
        k += 1;
    }
    r
}

/// What the docs reader shows of an item.
pub struct DocItemV {
    pub slug: Seq<char>,
    pub title: Seq<char>,
    pub date: Seq<char>,
    pub kb: u64,
}

impl View for DocItem {
    type V = DocItemV;

    open spec fn view(&self) -> DocItemV {
        DocItemV { slug: self.slug@, title: self.title@, date: self.date@, kb: self.kb }
    }
}

impl DocItem {
    pub fn copy_item(&self) -> (d: DocItem)
        ensures
            d@ == self@,
    {
        DocItem { slug: self.slug.clone(), title: self.title.clone(), date: self.date.clone(), kb: self.kb }
    }
}

} // verus!
