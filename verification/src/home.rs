//! The home screen: a three-column document grid under the status bar.
//! Folders first, then documents; vertical swipes page by whole rows.
//! Thumbnails arrive lazily, one per idle pass, so the grid keeps a list
//! of the cells still waiting for one.

use vstd::prelude::*;
use crate::geom::{SCREEN_W, SCREEN_H, trunc_div, min_spec, in_rect};
use crate::num::{digits, decimal};
use crate::order::{chars_lt, key_before, order_spec, stable_order, lemma_order_congruent, lemma_order_perm};
use crate::store::{DocInfo, DocInfoV, docs_view, reorder, copy_in_order};
use crate::strs::chars_of;
use crate::text::{join, join_chars};

verus! {

/// Height of the status bar above the grid.
pub const STATUS_H: i32 = 56;

pub const HEADER_H: i32 = 150;

/// Top of the grid.
pub const GRID_Y0: i32 = STATUS_H + HEADER_H;

pub const COLS: i32 = 3;

/// A third of the panel width.
pub const CELL_W: i32 = 468;

pub const CELL_H: i32 = 550;

/// Whole rows that fit under the header: (1872 - 206) / 550.
pub const ROWS: i32 = 3;

#[derive(Clone, Copy, PartialEq, Eq, Structural, Debug)]
pub enum Sort {
    Opened,
    Title,
}

pub enum Cell {
    Folder(String),
    Doc(DocInfo),
}

pub enum CellV {
    Folder(Seq<char>),
    Doc(DocInfoV),
}

impl View for Cell {
    type V = CellV;

    open spec fn view(&self) -> CellV {
        match self {
            Cell::Folder(f) => CellV::Folder(f@),
            Cell::Doc(d) => CellV::Doc(d@),
        }
    }
}

pub open spec fn cells_view(cs: Seq<Cell>) -> Seq<CellV> {
    cs.map(|_i, c: Cell| c@)
}

pub struct HomeView {
    /// None is the root.
    pub folder: Option<String>,
    pub cells: Vec<Cell>,
    /// First grid row on screen.
    pub top_row: usize,
    /// Thumbnail of each cell, once there is one.
    pub thumbs: Vec<Option<Vec<u8>>>,
    /// Cells still waiting for a thumbnail.
    pub pending: Vec<usize>,
    /// Content fingerprint, to notice documents that appear or change.
    pub sig: String,
}

/* ---- building the grid ---------------------------------------------------- */

/// The lowercase form of a text (std `str::to_lowercase`).
pub uninterp spec fn lowercase(s: Seq<char>) -> Seq<char>;

/// std `str::to_lowercase`: the text with every character mapped to its
/// Unicode lowercase; what that mapping is, is left to std, so the result
/// is only named as `lowercase` of the argument.
#[verifier::external_body]
fn to_lower(s: &str) -> (r: String)
    ensures
        r@ == lowercase(s@),
{
    s.to_lowercase()
}

/// The order for the A-Z sort: lowercase titles in code-point order.
pub open spec fn title_before(ds: Seq<DocInfoV>) -> spec_fn(int, int) -> bool {
    |i: int, j: int| chars_lt(lowercase(ds[i].title), lowercase(ds[j].title))
}

/// The documents in the order the grid lists them.
pub open spec fn sorted_docs(ds: Seq<DocInfoV>, sort: Sort) -> Seq<DocInfoV> {
    if sort == Sort::Title {
        reorder(ds, order_spec(title_before(ds), ds.len() as int))
    } else {
        ds
    }
}

/// Is document `d` in folder `folder` (the root when None)?
pub open spec fn in_folder(d: DocInfoV, folder: Option<Seq<char>>) -> bool {
    match folder {
        None => d.folder.len() == 0,
        Some(f) => d.folder == f,
    }
}

/// The documents of a folder, in order, as cells.
pub open spec fn doc_cells(ds: Seq<DocInfoV>, folder: Option<Seq<char>>) -> Seq<CellV>
    decreases ds.len(),
{
    if ds.len() == 0 {
        Seq::empty()
    } else if in_folder(ds.last(), folder) {
        doc_cells(ds.drop_last(), folder).push(CellV::Doc(ds.last()))
    } else {
        doc_cells(ds.drop_last(), folder)
    }
}

/// The grid: at the root every folder, then the documents outside any
/// folder; inside a folder, its documents.
pub open spec fn cells_spec(
    folder: Option<Seq<char>>,
    sort: Sort,
    ds: Seq<DocInfoV>,
    fs: Seq<Seq<char>>,
) -> Seq<CellV> {
    let docs = doc_cells(sorted_docs(ds, sort), folder);
    match folder {
        None => fs.map(|_i, f: Seq<char>| CellV::Folder(f)) + docs,
        Some(_) => docs,
    }
}

/// A cell's part of the fingerprint: `f:<name>` or `d:<id>:<opened>`.
pub open spec fn sig_part(c: CellV) -> Seq<char> {
    match c {
        CellV::Folder(f) => seq!['f', ':'] + f,
        CellV::Doc(d) => seq!['d', ':'] + d.id + seq![':'] + digits(d.opened as nat, 10),
    }
}

/// The fingerprint: the cells' parts joined by `|`.
pub open spec fn sig_spec(cs: Seq<CellV>) -> Seq<char> {
    join(cs.map(|_i, c: CellV| sig_part(c)), seq!['|'])
}

pub open spec fn opt_string(o: Option<String>) -> Option<Seq<char>> {
    match o {
        Some(s) => Some(s@),
        None => None,
    }
}

/// The documents for the A-Z sort.
fn sort_by_title(ds: &Vec<DocInfo>) -> (r: Vec<DocInfo>)
    ensures
        docs_view(r@) == sorted_docs(docs_view(ds@), Sort::Title),
{
    let mut keys: Vec<Vec<char>> = Vec::new();
    let mut i: usize = 0;
    while i < ds.len()
        invariant
            i <= ds@.len(),
            keys@.len() == i,
            forall|k: int| 0 <= k < i ==> (#[trigger] keys@[k])@ == lowercase(ds@[k].title@),
        decreases ds.len() - i,
    {
        let low = to_lower(ds[i].title.as_str());
        keys.push(chars_of(low.as_str()));
        i += 1;
    }
    let o = stable_order(&keys);
    let ghost n = ds@.len() as int;
    proof {
        lemma_order_congruent(key_before(keys@), title_before(docs_view(ds@)), n);
        lemma_order_perm(key_before(keys@), n);
    }
    copy_in_order(ds, &o)
}

fn cell_sig(c: &Cell) -> (s: Vec<char>)
    ensures
        s@ == sig_part(c@),
{
    let mut out: Vec<char> = Vec::new();
    match c {
        Cell::Folder(f) => {
            out.push('f');
            out.push(':');
            let cs = chars_of(f.as_str());
            out.extend_from_slice(&cs);
        },
        Cell::Doc(d) => {
            out.push('d');
            out.push(':');
            let id = chars_of(d.id.as_str());
            out.extend_from_slice(&id);
            out.push(':');
            let n = decimal(d.opened);
            out.extend_from_slice(&n);
        },
    }
    assert(out@ =~= sig_part(c@));
    out
}

impl HomeView {
    /// The grid for `folder`, from the scanned documents (most recently
    /// opened first) and the folder list. Thumbnails are attached
    /// afterwards with `attach_thumbs`.
    pub fn build(folder: Option<String>, sort: Sort, docs: &Vec<DocInfo>, folders: Vec<String>) -> (h: HomeView)
        ensures
            opt_string(h.folder) == opt_string(folder),
            cells_view(h.cells@) == cells_spec(
                opt_string(folder),
                sort,
                docs_view(docs@),
                folders.deep_view(),
            ),
            h.top_row == 0,
            h.sig@ == sig_spec(cells_view(h.cells@)),
            h.thumbs@.len() == h.cells@.len(),
            forall|i: int| 0 <= i < h.thumbs@.len() ==> h.thumbs@[i] is None,
            h.pending@.len() == 0,
    {
        let sorted = if sort == Sort::Title {
            sort_by_title(docs)
        } else {
            copy_in_order(docs, &identity(docs.len()))
        };
        proof {
            if sort != Sort::Title {
                assert(docs_view(sorted@) =~= docs_view(docs@));
            }
        }
        let ghost fv = opt_string(folder);
        let ghost sv = docs_view(sorted@);
        let mut cells: Vec<Cell> = Vec::new();
        let root = folder.is_none();
        if root {
            let mut k: usize = 0;
            while k < folders.len()
                invariant
                    k <= folders@.len(),
                    cells_view(cells@) == folders.deep_view().take(k as int).map(
                        |_i, f: Seq<char>| CellV::Folder(f),
                    ),
                decreases folders.len() - k,
            {
                let ghost prev = cells_view(cells@);
                let f = folders[k].clone();
                let ghost fk = f@;
                cells.push(Cell::Folder(f));
                proof {
                    assert(fk == folders.deep_view()[k as int]);
                    assert(cells_view(cells@) =~= prev.push(CellV::Folder(fk)));
                    assert(folders.deep_view().take(k + 1) =~= folders.deep_view().take(k as int).push(fk));
                    assert(cells_view(cells@) =~= folders.deep_view().take(k + 1).map(
                        |_i, f: Seq<char>| CellV::Folder(f),
                    ));
                }
                k += 1;
            }
            assert(folders.deep_view().take(folders@.len() as int) =~= folders.deep_view());
        }
        let ghost head = cells_view(cells@);
        let mut i: usize = 0;
        while i < sorted.len()
            invariant
                i <= sorted@.len(),
                sv == docs_view(sorted@),
                fv == opt_string(folder),
                cells_view(cells@) == head + doc_cells(sv.take(i as int), fv),
            decreases sorted.len() - i,
        {
            let d = &sorted[i];
            let keep = match &folder {
                None => d.folder.as_str().is_empty(),
                Some(f) => d.folder == *f,
            };
            assert(sv.take(i + 1).drop_last() =~= sv.take(i as int));
            assert(sv.take(i + 1).last() == d@);
            if keep {
                let ghost prev = cells_view(cells@);
                cells.push(Cell::Doc(d.copy_info()));
                assert(cells_view(cells@) =~= prev.push(CellV::Doc(d@)));
            }
            i += 1;
        }
        assert(sv.take(sorted@.len() as int) =~= sv);
        proof {
            if root {
                assert(fv is None);
            }
        }
        let mut parts: Vec<Vec<char>> = Vec::new();
        let mut thumbs: Vec<Option<Vec<u8>>> = Vec::new();
        let mut k: usize = 0;
        while k < cells.len()
            invariant
                k <= cells@.len(),
                parts@.len() == k,
                thumbs@.len() == k,
                forall|q: int| 0 <= q < k ==> (#[trigger] parts@[q])@ == sig_part(cells@[q]@),
                forall|q: int| 0 <= q < k ==> (#[trigger] thumbs@[q]) is None,
            decreases cells.len() - k,
        {
            parts.push(cell_sig(&cells[k]));
            thumbs.push(None);
            k += 1;
        }
        let sep = vec!['|'];
        assert(sep@ =~= seq!['|']);
        let sig_chars = join_chars(&parts, sep.as_slice());
        proof {
            let want = cells_view(cells@).map(|_i, c: CellV| sig_part(c));
            assert forall|q: int| 0 <= q < parts@.len() implies parts.deep_view()[q] == want[q] by {
                assert(parts.deep_view()[q] =~= parts@[q]@);
            }
            assert(parts.deep_view() =~= want);
        }
        let sig = crate::strs::string_of(&sig_chars, 0, sig_chars.len());
        assert(sig_chars@.subrange(0, sig_chars@.len() as int) =~= sig_chars@);
        HomeView { folder, cells, top_row: 0, thumbs, pending: Vec::new(), sig }
    }
}

/// Cells of the grid that are documents without a thumbnail, in order.
pub open spec fn missing_thumbs(cs: Seq<CellV>, thumbs: Seq<Option<Vec<u8>>>, n: int) -> Seq<usize>
    decreases n,
{
    if n <= 0 {
        Seq::empty()
    } else if cs[n - 1] is Doc && thumbs[n - 1] is None {
        missing_thumbs(cs, thumbs, n - 1).push((n - 1) as usize)
    } else {
        missing_thumbs(cs, thumbs, n - 1)
    }
}

/// First cell index of the screenful starting at grid row `top`.
pub open spec fn first_visible(top: int, len: int) -> int {
    min_spec(top * COLS, len)
}

/// One past the last cell index on screen.
pub open spec fn end_visible(top: int, len: int) -> int {
    min_spec(top * COLS + COLS * ROWS, len)
}

/// The screen slot (column + row * COLS) under (x, y), if (x, y) is on
/// one of the grid's rows. Columns past the last clamp to it; the column
/// of a point left of the panel may be negative.
pub open spec fn slot_at(x: int, y: int) -> Option<int> {
    if y < GRID_Y0 {
        None
    } else {
        let c = min_spec(trunc_div(x, CELL_W as int), COLS - 1);
        let r = (y - GRID_Y0) / CELL_H as int;
        if r >= ROWS {
            None
        } else {
            Some(r * COLS + c)
        }
    }
}

/// The cell under (x, y), given the first row on screen and the number of
/// cells.
pub open spec fn cell_at_spec(top: int, len: int, x: int, y: int) -> Option<int> {
    match slot_at(x, y) {
        None => None,
        Some(k) => if k < 0 || top * COLS + k >= len {
            None
        } else {
            Some(top * COLS + k)
        },
    }
}

/// Number of grid rows `len` cells fill.
pub open spec fn rows_total(len: int) -> int {
    (len + COLS - 1) / (COLS as int)
}

/// The first row on screen after a swipe, and whether it moved: down by a
/// screenful while another screenful starts below, up by a screenful (not
/// past the top).
pub open spec fn scroll_spec(top: int, len: int, down: bool) -> (int, bool) {
    if down {
        if top + ROWS < rows_total(len) {
            (top + ROWS, true)
        } else {
            (top, false)
        }
    } else if top > 0 {
        (if top >= ROWS {
            top - ROWS
        } else {
            0
        }, true)
    } else {
        (top, false)
    }
}

/// A swipe down that moved is undone by a swipe up.
pub proof fn lemma_scroll_down_up(top: int, len: int)
    requires
        0 <= top,
        scroll_spec(top, len, true).1,
    ensures
        scroll_spec(scroll_spec(top, len, true).0, len, false) == (top, true),
{
}

/// After any swipe the screen still starts inside the grid (or on its
/// first row).
pub proof fn lemma_scroll_stays_in_grid(top: int, len: int, down: bool)
    requires
        0 <= top,
        0 <= len,
        top == 0 || top < rows_total(len),
    ensures
        scroll_spec(top, len, down).0 == 0 || scroll_spec(top, len, down).0 < rows_total(len),
        0 <= scroll_spec(top, len, down).0,
{
}

/// What "1 page", "N pages" or "at P of N" a document's label shows.
pub open spec fn pages_label_spec(d: DocInfoV) -> Seq<char> {
    let n: nat = if d.kind == crate::store::DocKind::Book {
        d.pages as nat
    } else {
        d.seq_len as nat
    };
    if d.pos > 0 {
        seq!['a', 't', ' '] + digits((d.pos + 1) as nat, 10) + seq![' ', 'o', 'f', ' '] + digits(
            d.seq_len as nat,
            10,
        )
    } else if n == 1 {
        seq!['1', ' ', 'p', 'a', 'g', 'e']
    } else {
        digits(n, 10) + seq![' ', 'p', 'a', 'g', 'e', 's']
    }
}

/// The document's page count or reading position, for its cell.
pub fn pages_label(d: &DocInfo) -> (s: String)
    requires
        d.pos < usize::MAX,
    ensures
        s@ == pages_label_spec(d@),
{
    let n = match d.kind {
        crate::store::DocKind::Book => d.pages,
        crate::store::DocKind::Notebook => d.seq_len,
    };
    let mut out: Vec<char> = Vec::new();
    if d.pos > 0 {
        out.extend_from_slice(&['a', 't', ' ']);
        out.extend_from_slice(&decimal((d.pos + 1) as u64));
        out.extend_from_slice(&[' ', 'o', 'f', ' ']);
        out.extend_from_slice(&decimal(d.seq_len as u64));
    } else if n == 1 {
        out.extend_from_slice(&['1', ' ', 'p', 'a', 'g', 'e']);
    } else {
        out.extend_from_slice(&decimal(n as u64));
        out.extend_from_slice(&[' ', 'p', 'a', 'g', 'e', 's']);
    }
    assert(out@ =~= pages_label_spec(d@));
    crate::strs::string_of(&out, 0, out.len())
}

/// "new", "Today", "Yesterday" or "N days ago" for a document last opened
/// at `opened`, seen at `now` (unix seconds; 0 = never opened).
pub open spec fn rel_date_spec(opened: u64, now: u64) -> Seq<char> {
    let days: nat = (if now >= opened {
        now - opened
    } else {
        0
    }) as nat / 86400;
    if opened == 0 {
        seq!['n', 'e', 'w']
    } else if days == 0 {
        seq!['T', 'o', 'd', 'a', 'y']
    } else if days == 1 {
        seq!['Y', 'e', 's', 't', 'e', 'r', 'd', 'a', 'y']
    } else {
        digits(days, 10) + seq![' ', 'd', 'a', 'y', 's', ' ', 'a', 'g', 'o']
    }
}

/// How long ago a document was opened, in whole days.
pub fn rel_date(opened: u64, now: u64) -> (s: String)
    ensures
        s@ == rel_date_spec(opened, now),
{
    let mut out: Vec<char> = Vec::new();
    let days = now.saturating_sub(opened) / 86400;
    if opened == 0 {
        out.extend_from_slice(&['n', 'e', 'w']);
    } else if days == 0 {
        out.extend_from_slice(&['T', 'o', 'd', 'a', 'y']);
    } else if days == 1 {
        out.extend_from_slice(&['Y', 'e', 's', 't', 'e', 'r', 'd', 'a', 'y']);
    } else {
        out.extend_from_slice(&decimal(days));
        out.extend_from_slice(&[' ', 'd', 'a', 'y', 's', ' ', 'a', 'g', 'o']);
    }
    assert(out@ =~= rel_date_spec(opened, now));
    crate::strs::string_of(&out, 0, out.len())
}

impl HomeView {
    /// Attach the thumbnails found on disk (one per cell); documents
    /// without one are queued for generation.
    pub fn attach_thumbs(&mut self, fresh: Vec<Option<Vec<u8>>>)
        requires
            fresh@.len() == old(self).cells@.len(),
        ensures
            final(self).thumbs@ == fresh@,
            final(self).pending@ == missing_thumbs(
                cells_view(old(self).cells@),
                fresh@,
                fresh@.len() as int,
            ),
            cells_view(final(self).cells@) == cells_view(old(self).cells@),
            final(self).top_row == old(self).top_row,
    {
        let mut pending: Vec<usize> = Vec::new();
        let mut i: usize = 0;
        while i < fresh.len()
            invariant
                i <= fresh@.len(),
                fresh@.len() == self.cells@.len(),
                pending@ == missing_thumbs(cells_view(self.cells@), fresh@, i as int),
            decreases fresh.len() - i,
        {
            let is_doc = match &self.cells[i] {
                Cell::Doc(_) => true,
                Cell::Folder(_) => false,
            };
            if is_doc && fresh[i].is_none() {
                pending.push(i);
            }
            i += 1;
        }
        self.thumbs = fresh;
        self.pending = pending;
    }

    /// Take the next thumbnail job (the last one queued): the cell and,
    /// for a document, its id to render. None when none is due.
    pub fn generate_one_thumb(&mut self) -> (job: Option<(usize, Option<String>)>)
        requires
            forall|k: int| 0 <= k < old(self).pending@.len() ==> (#[trigger] old(self).pending@[k]) < old(self).cells@.len(),
        ensures
            match job {
                None => old(self).pending@.len() == 0 && final(self).pending@ == old(self).pending@,
                Some((i, id)) => {
                    &&& old(self).pending@.len() > 0
                    &&& i == old(self).pending@.last()
                    &&& final(self).pending@ == old(self).pending@.drop_last()
                    &&& match old(self).cells@[i as int]@ {
                        CellV::Doc(d) => id matches Some(s) && s@ == d.id,
                        CellV::Folder(_) => id is None,
                    }
                },
            },
            cells_view(final(self).cells@) == cells_view(old(self).cells@),
            final(self).thumbs@ == old(self).thumbs@,
            final(self).top_row == old(self).top_row,
            final(self).folder == old(self).folder,
            final(self).sig == old(self).sig,
    {
        match self.pending.pop() {
            None => None,
            Some(i) => {
                let id = match &self.cells[i] {
                    Cell::Doc(d) => Some(d.id.clone()),
                    Cell::Folder(_) => None,
                };
                Some((i, id))
            },
        }
    }

    /// Store a freshly generated thumbnail for cell `i`.
    pub fn store_thumb(&mut self, i: usize, thumb: Option<Vec<u8>>)
        requires
            i < old(self).thumbs@.len(),
        ensures
            final(self).thumbs@ == old(self).thumbs@.update(i as int, thumb),
            cells_view(final(self).cells@) == cells_view(old(self).cells@),
            final(self).pending@ == old(self).pending@,
            final(self).top_row == old(self).top_row,
            final(self).folder == old(self).folder,
            final(self).sig == old(self).sig,
    {
        self.thumbs.set(i, thumb);
    }

    /// The cells on screen, as an index range.
    pub fn visible(&self) -> (r: std::ops::Range<usize>)
        requires
            self.top_row * COLS + COLS * ROWS <= usize::MAX,
        ensures
            r.start == first_visible(self.top_row as int, self.cells@.len() as int),
            r.end == end_visible(self.top_row as int, self.cells@.len() as int),
    {
        let a = self.top_row * 3;
        let n = self.cells.len();
        let s = if a <= n {
            a
        } else {
            n
        };
        let e = if a + 9 <= n {
            a + 9
        } else {
            n
        };
        s..e
    }

    /// Top-left corner of cell `i` on screen; None when it is off screen.
    pub fn cell_rect(&self, i: usize) -> (r: Option<(i32, i32)>)
        requires
            self.top_row * COLS + COLS * ROWS <= usize::MAX,
        ensures
            match r {
                None => !(first_visible(self.top_row as int, self.cells@.len() as int) <= i
                    < end_visible(self.top_row as int, self.cells@.len() as int)),
                Some((x, y)) => {
                    let k = i - first_visible(self.top_row as int, self.cells@.len() as int);
                    &&& first_visible(self.top_row as int, self.cells@.len() as int) <= i
                        < end_visible(self.top_row as int, self.cells@.len() as int)
                    &&& x == (k % (COLS as int)) * CELL_W
                    &&& y == GRID_Y0 + (k / (COLS as int)) * CELL_H
                },
            },
    {
        let vis = self.visible();
        if !(vis.start <= i && i < vis.end) {
            return None;
        }
        let k = (i - vis.start) as i32;
        assert(0 <= k < 9);
        Some((k % COLS * CELL_W, GRID_Y0 + k / COLS * CELL_H))
    }

    /// The cell under a tap.
    pub fn cell_at(&self, x: i32, y: i32) -> (r: Option<usize>)
        requires
            self.top_row * COLS + COLS * ROWS <= usize::MAX,
        ensures
            match r {
                None => cell_at_spec(self.top_row as int, self.cells@.len() as int, x as int, y as int) is None,
                Some(i) => cell_at_spec(self.top_row as int, self.cells@.len() as int, x as int, y as int) == Some(i as int),
            },
    {
        if y < GRID_Y0 {
            return None;
        }
        let q = x / CELL_W;
        let c = if q <= COLS - 1 {
            q
        } else {
            COLS - 1
        };
        let r = (y - GRID_Y0) / CELL_H;
        if r >= ROWS {
            return None;
        }
        let k = r * COLS + c;
        if k < 0 {
            return None;
        }
        let i = self.top_row * 3 + k as usize;
        if i < self.cells.len() {
            Some(i)
        } else {
            None
        }
    }

    /// Page the grid by a screenful of rows; true when it moved.
    pub fn scroll(&mut self, down: bool) -> (moved: bool)
        requires
            old(self).top_row + ROWS <= usize::MAX,
        ensures
            (final(self).top_row as int, moved) == scroll_spec(
                old(self).top_row as int,
                old(self).cells@.len() as int,
                down,
            ),
            cells_view(final(self).cells@) == cells_view(old(self).cells@),
            final(self).thumbs@ == old(self).thumbs@,
            final(self).pending@ == old(self).pending@,
    {
        let n = self.cells.len();
        let rows = n / 3 + if n % 3 == 0 {
            0
        } else {
            1
        };
        assert(rows == rows_total(n as int));
        if down {
            if self.top_row + 3 < rows {
                self.top_row = self.top_row + 3;
                return true;
            }
        } else if self.top_row > 0 {
            self.top_row = if self.top_row >= 3 {
                self.top_row - 3
            } else {
                0
            };
            return true;
        }
        false
    }
}

/// `0, 1, .., n - 1`.
fn identity(n: usize) -> (o: Vec<usize>)
    ensures
        o@.len() == n,
        forall|i: int| 0 <= i < n ==> #[trigger] o@[i] == i,
{
    let mut o: Vec<usize> = Vec::new();
    while o.len() < n
        invariant
            o@.len() <= n,
            forall|i: int| 0 <= i < o@.len() ==> #[trigger] o@[i] == i,
        decreases n - o.len(),
    {
        o.push(o.len());
    }
    o
}


/// A tap anywhere in a painted cell hits that cell.
pub proof fn lemma_tap_in_cell_hits_it(top: int, len: int, i: int, x2: int, y2: int)
    requires
        0 <= top,
        first_visible(top, len) <= i < end_visible(top, len),
        ({
            let k = i - first_visible(top, len);
            let x = (k % 3) * CELL_W;
            let y = GRID_Y0 + (k / 3) * CELL_H;
            x <= x2 < x + CELL_W && y <= y2 < y + CELL_H
        }),
    ensures
        cell_at_spec(top, len, x2, y2) == Some(i),
{
    let k = i - top * 3;
    assert(first_visible(top, len) == top * 3);
    assert(0 <= k < 9);
    let (c, r) = (k % 3, k / 3);
    assert(0 <= c < 3 && 0 <= r < 3 && k == r * 3 + c);
    assert(x2 / (CELL_W as int) == c) by (nonlinear_arith)
        requires
            c * 468 <= x2 < c * 468 + 468,
            0 <= c,
    ;
    assert((y2 - GRID_Y0) / (CELL_H as int) == r) by (nonlinear_arith)
        requires
            r * 550 <= y2 - GRID_Y0 < r * 550 + 550,
            0 <= r,
    ;
    assert(slot_at(x2, y2) == Some(k));
}


/* ---- a tap on the home screen -------------------------------------------- */

pub const NEW_BTN_W: i32 = 300;

pub const SORT_BTN_W: i32 = 220;

pub const HDR_BTN_H: i32 = 64;

/// What a tap on the home screen does.
pub enum HomeTap {
    /// Create a notebook with this title in the folder shown (None: the
    /// root) and open it.
    NewNotebook(String, Option<String>),
    /// Switch the sort order to this one, save it and rebuild.
    Sort(Sort),
    /// Go back up to the root.
    Up,
    /// Show this folder.
    OpenFolder(String),
    /// Open this document.
    OpenDoc(String),
    Nothing,
}

pub enum HomeTapV {
    NewNotebook(Seq<char>, Option<Seq<char>>),
    Sort(Sort),
    Up,
    OpenFolder(Seq<char>),
    OpenDoc(Seq<char>),
    Nothing,
}

impl View for HomeTap {
    type V = HomeTapV;

    open spec fn view(&self) -> HomeTapV {
        match self {
            HomeTap::NewNotebook(t, f) => HomeTapV::NewNotebook(t@, match f {
                Some(s) => Some(s@),
                None => None,
            }),
            HomeTap::Sort(s) => HomeTapV::Sort(*s),
            HomeTap::Up => HomeTapV::Up,
            HomeTap::OpenFolder(f) => HomeTapV::OpenFolder(f@),
            HomeTap::OpenDoc(d) => HomeTapV::OpenDoc(d@),
            HomeTap::Nothing => HomeTapV::Nothing,
        }
    }
}

/// The tap at (x, y) on a home screen showing `folder` (None: the root)
/// and `cells` from grid row `top`; `notebooks` counts the notebooks
/// there are. The NEW button, the sort button, the breadcrumb back to
/// the root, then the cell under the tap.
pub open spec fn home_tap_spec(folder: Option<Seq<char>>, cells: Seq<CellV>, top: int, sort: Sort, notebooks: nat, x: int, y: int) -> HomeTapV {
    let by = STATUS_H + 40;
    let nx = SCREEN_W - 48 - NEW_BTN_W;
    let sx = nx - 24 - SORT_BTN_W;
    if nx <= x < nx + NEW_BTN_W && by <= y < by + HDR_BTN_H {
        HomeTapV::NewNotebook("Notebook "@ + digits(notebooks + 1, 10), folder)
    } else if sx <= x < sx + SORT_BTN_W && by <= y < by + HDR_BTN_H {
        HomeTapV::Sort(match sort {
            Sort::Opened => Sort::Title,
            Sort::Title => Sort::Opened,
        })
    } else if folder is Some && y < GRID_Y0 && x < SCREEN_W / 2 {
        HomeTapV::Up
    } else {
        match cell_at_spec(top, cells.len() as int, x, y) {
            Some(i) => match cells[i] {
                CellV::Folder(f) => HomeTapV::OpenFolder(f),
                CellV::Doc(d) => HomeTapV::OpenDoc(d.id),
            },
            None => HomeTapV::Nothing,
        }
    }
}

impl HomeView {
    pub fn home_tap(&self, x: i32, y: i32, sort: Sort, notebooks: u64) -> (t: HomeTap)
        requires
            self.top_row * COLS + COLS * ROWS <= usize::MAX,
            notebooks < u64::MAX,
        ensures
            t@ == home_tap_spec(
                match self.folder {
                    Some(f) => Some(f@),
                    None => None,
                },
                cells_view(self.cells@),
                self.top_row as int,
                sort,
                notebooks as nat,
                x as int,
                y as int,
            ),
    {
        let by = STATUS_H + 40;
        let nx = SCREEN_W - 48 - NEW_BTN_W;
        let sx = nx - 24 - SORT_BTN_W;
        if in_rect(x, y, nx, by, NEW_BTN_W, HDR_BTN_H) {
            let mut t = chars_of("Notebook ");
            let d = decimal(notebooks + 1);
            t.extend_from_slice(d.as_slice());
            let title = crate::strs::string_of(t.as_slice(), 0, t.len());
            assert(title@ =~= "Notebook "@ + digits((notebooks + 1) as nat, 10));
            return HomeTap::NewNotebook(title, self.folder.clone());
        }
        if in_rect(x, y, sx, by, SORT_BTN_W, HDR_BTN_H) {
            return HomeTap::Sort(match sort {
                Sort::Opened => Sort::Title,
                Sort::Title => Sort::Opened,
            });
        }
        if self.folder.is_some() && y < GRID_Y0 && x < SCREEN_W / 2 {
            return HomeTap::Up;
        }
        match self.cell_at(x, y) {
            Some(i) => {
                assert(cells_view(self.cells@)[i as int] == self.cells@[i as int]@);
                match &self.cells[i] {
                    Cell::Folder(f) => HomeTap::OpenFolder(f.clone()),
                    Cell::Doc(d) => HomeTap::OpenDoc(d.id.clone()),
                }
            },
            None => HomeTap::Nothing,
        }
    }
}

} // verus!
