use mdcore::browser::{browser_entries, BrowserEntry, DirItem};

fn item(name: &str, is_dir: bool, len: u64) -> DirItem {
    DirItem {
        name: name.to_string(),
        path: format!("/d/{name}"),
        is_dir,
        is_file: !is_dir,
        len,
    }
}

fn names(es: &[BrowserEntry]) -> Vec<&str> {
    es.iter().map(|e| e.name.as_str()).collect()
}

#[test]
fn folders_first_then_names_case_blind() {
    let es = browser_entries(vec![
        item("b.txt", false, 3),
        item("Zeta", true, 4096),
        item("A.DOCX", false, 10),
        item("alpha", true, 4096),
        item("c", false, 1),
    ]);
    assert_eq!(names(&es), vec!["alpha", "Zeta", "A.DOCX", "b.txt", "c"]);
}

#[test]
fn hidden_entries_are_left_out() {
    let es = browser_entries(vec![item(".git", true, 0), item(".env", false, 5), item("x.md", false, 2)]);
    assert_eq!(names(&es), vec!["x.md"]);
}

#[test]
fn size_and_extension() {
    let es = browser_entries(vec![
        item("Report.Final.PDF", false, 1234),
        item("noext", false, 7),
        item("dir.d", true, 4096),
        item("trail.", false, 1),
    ]);
    assert_eq!(names(&es), vec!["dir.d", "noext", "Report.Final.PDF", "trail."]);
    assert_eq!((es[0].size, es[0].ext.as_str(), es[0].is_dir), (0, "d", true));
    assert_eq!((es[1].size, es[1].ext.as_str()), (7, "noext"));
    assert_eq!((es[2].size, es[2].ext.as_str()), (1234, "pdf"));
    assert_eq!(es[2].path, "/d/Report.Final.PDF");
    assert_eq!((es[3].size, es[3].ext.as_str()), (1, ""));
}

#[test]
fn neither_file_nor_folder_has_size_zero() {
    let odd = DirItem { name: "sock".to_string(), path: "/d/sock".to_string(), is_dir: false, is_file: false, len: 99 };
    let es = browser_entries(vec![odd]);
    assert_eq!(es[0].size, 0);
}

#[test]
fn equal_keys_keep_their_order() {
    let es = browser_entries(vec![item("a", false, 1), item("B", false, 2), item("A", false, 3), item("b", false, 4)]);
    let got: Vec<(&str, u64)> = es.iter().map(|e| (e.name.as_str(), e.size)).collect();
    assert_eq!(got, vec![("a", 1), ("A", 3), ("B", 2), ("b", 4)]);
}

#[test]
fn code_point_order_and_prefixes() {
    let es = browser_entries(vec![item("ab", false, 0), item("a", false, 0), item("é", false, 0), item("z", false, 0), item("_", false, 0)]);
    assert_eq!(names(&es), vec!["_", "a", "ab", "z", "é"]);
}

#[test]
fn empty_folder() {
    assert!(browser_entries(Vec::new()).is_empty());
}
