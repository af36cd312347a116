use archiver::paths::FsPath;
use archiver::entries::{DirEntryInfo, sort_entries};
use archiver::extensions::{extension_summary, is_optimizable, select_optimizable, file_extension_key};
use archiver::choices::ChosenOptions;
use archiver::option::ArchiveOption;

fn path(s: &str) -> FsPath {
    FsPath::from_parts(s.split('/').filter(|c| !c.is_empty()).map(|c| c.as_bytes().to_vec()).collect())
}

fn name(p: &FsPath) -> String {
    String::from_utf8(p.parts.last().unwrap().clone()).unwrap()
}

fn entry(s: &str, is_dir: bool) -> DirEntryInfo {
    DirEntryInfo { path: path(s), is_dir, link_target: None }
}

#[test]
fn listing_puts_directories_first_then_names() {
    let entries = vec![
        entry("/r/zeta.txt", false),
        entry("/r/Beta", true),
        entry("/r/alpha.txt", false),
        entry("/r/gamma", true),
        DirEntryInfo { path: path("/r/Link"), is_dir: true, link_target: Some(b"/elsewhere".to_vec()) },
        entry("/r/Alpha2.txt", false),
    ];
    let sorted = sort_entries(&entries);
    let names: Vec<String> = sorted.iter().map(|e| name(&e.path)).collect();
    assert_eq!(names, vec!["Beta", "gamma", "Link", "alpha.txt", "Alpha2.txt", "zeta.txt"]);
    assert_eq!(sorted[2].link_target, Some(b"/elsewhere".to_vec()));
}

#[test]
fn equal_names_keep_their_order() {
    let entries = vec![entry("/r/B", false), entry("/r/b", false), entry("/r/a", false)];
    let sorted = sort_entries(&entries);
    let names: Vec<String> = sorted.iter().map(|e| name(&e.path)).collect();
    assert_eq!(names, vec!["a", "B", "b"]);
}

#[test]
fn extension_sizes_are_summed_and_sorted() {
    let files = vec![
        (path("/r/a.JPG"), 100u64),
        (path("/r/README"), 7),
        (path("/r/x/b.jpg"), 50),
        (path("/r/c.txt"), 300),
        (path("/r/.hidden"), 3),
        (path("/r/d.txt"), 0),
    ];
    let summary = extension_summary(&files);
    let got: Vec<(String, u64)> = summary.iter().map(|(e, s)| (e.iter().collect(), *s)).collect();
    assert_eq!(got, vec![("txt".to_string(), 300), ("jpg".to_string(), 150), ("".to_string(), 10)]);
}

#[test]
fn extension_summary_of_nothing_is_empty() {
    assert!(extension_summary(&vec![]).is_empty());
}

#[test]
fn equal_totals_keep_first_appearance_order() {
    let files = vec![(path("/r/a.b"), 5u64), (path("/r/a.c"), 5), (path("/r/a.a"), 5)];
    let got: Vec<String> = extension_summary(&files).iter().map(|(e, _)| e.iter().collect()).collect();
    assert_eq!(got, vec!["b", "c", "a"]);
}

#[test]
fn extension_keys_are_lowercase() {
    let k: String = file_extension_key(&path("/r/IMG.JpEg")).iter().collect();
    assert_eq!(k, "jpeg");
    assert!(file_extension_key(&path("/r/Makefile")).is_empty());
}

#[test]
fn optimizable_images() {
    let mut c = ChosenOptions::new(&path("/r"));
    assert!(is_optimizable(&c, &path("/r/a.PNG")));
    assert!(is_optimizable(&c, &path("/r/a.jpeg")));
    assert!(!is_optimizable(&c, &path("/r/a.gif")));
    assert!(!is_optimizable(&c, &path("/r/png")));
    c.cycle_path(&path("/r/skip"), true);
    assert_eq!(c.effective_option(&path("/r/skip/a.jpg")), ArchiveOption::Exclude);
    assert!(!is_optimizable(&c, &path("/r/skip/a.jpg")));
    let picked = select_optimizable(&c, &vec![path("/r/skip/a.jpg"), path("/r/b.jpg"), path("/r/c.txt"), path("/r/d.png")]);
    let names: Vec<String> = picked.iter().map(name).collect();
    assert_eq!(names, vec!["b.jpg", "d.png"]);
}
