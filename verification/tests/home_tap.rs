use remarkable::home::{Cell, HomeTap, HomeView, Sort};
use remarkable::store::{DocInfo, DocKind};

fn doc(id: &str) -> DocInfo {
    DocInfo {
        id: id.into(),
        title: id.into(),
        kind: DocKind::Book,
        folder: String::new(),
        pages: 3,
        pos: 0,
        seq_len: 3,
        opened: 0,
    }
}

fn view(folder: Option<&str>) -> HomeView {
    HomeView {
        folder: folder.map(String::from),
        cells: vec![Cell::Folder("Poems".into()), Cell::Doc(doc("walden")), Cell::Doc(doc("emma"))],
        top_row: 0,
        thumbs: vec![None, None, None],
        pending: vec![],
        sig: String::new(),
    }
}

#[test]
fn header_buttons_make_a_notebook_or_switch_the_sort() {
    // NEW at x 1056..1356, y 96..160; SORT at x 812..1032
    match view(Some("Poems")).home_tap(1100, 100, Sort::Opened, 4) {
        HomeTap::NewNotebook(t, f) => {
            assert_eq!(t, "Notebook 5");
            assert_eq!(f.as_deref(), Some("Poems"));
        }
        _ => panic!("expected a new notebook"),
    }
    assert!(matches!(view(None).home_tap(900, 100, Sort::Opened, 0), HomeTap::Sort(Sort::Title)));
    assert!(matches!(view(None).home_tap(900, 100, Sort::Title, 0), HomeTap::Sort(Sort::Opened)));
}

#[test]
fn the_breadcrumb_and_the_cells() {
    assert!(matches!(view(Some("Poems")).home_tap(100, 100, Sort::Opened, 0), HomeTap::Up));
    assert!(matches!(view(None).home_tap(100, 100, Sort::Opened, 0), HomeTap::Nothing));
    match view(None).home_tap(100, 300, Sort::Opened, 0) {
        HomeTap::OpenFolder(f) => assert_eq!(f, "Poems"),
        _ => panic!("expected the folder"),
    }
    match view(None).home_tap(500, 300, Sort::Opened, 0) {
        HomeTap::OpenDoc(d) => assert_eq!(d, "walden"),
        _ => panic!("expected the document"),
    }
    assert!(matches!(view(None).home_tap(500, 900, Sort::Opened, 0), HomeTap::Nothing));
}
