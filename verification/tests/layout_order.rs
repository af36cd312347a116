use ratatui::layout::{Constraint, Direction, Layout};
use archiver::layout::{BrowserLayout, browser_layout, centered_rect, checked_wrapped_line_count, split_words, wrapped_line_count};
use archiver::labels::{entry_label, extension_label, title};
use archiver::browser::VisibleEntry;
use archiver::choices::ChosenOptions;
use archiver::option::ArchiveOption;
use archiver::ordering::{ImageInfo, VisitOrder, canvas_size, oriented, reorder};
use archiver::paths::FsPath;

fn path(s: &str) -> FsPath {
    FsPath::from_parts(s.split('/').filter(|c| !c.is_empty()).map(|c| c.as_bytes().to_vec()).collect())
}

fn chars(s: &str) -> Vec<char> {
    s.chars().collect()
}

fn text(v: &[char]) -> String {
    v.iter().collect()
}

const FOOTER: &str = "  q/Ctrl+c:quit  ↑/↓:move  Space:cycle option  Enter/→:descend  ←:parent  r:reset  u:undo reset  Tab:switch active tab  Shift+Enter:confirm choise";

#[test]
fn footer_wrapping() {
    let t = chars(FOOTER);
    assert_eq!(wrapped_line_count(&t, 0), 24);
    assert_eq!(wrapped_line_count(&t, 10), 15);
    assert_eq!(wrapped_line_count(&t, 40), 4);
    assert_eq!(wrapped_line_count(&t, 80), 2);
    assert_eq!(wrapped_line_count(&t, 200), 1);
    assert_eq!(wrapped_line_count(&chars(""), 5), 1);
    assert_eq!(wrapped_line_count(&chars("abc"), 2), 2);
    assert_eq!(checked_wrapped_line_count(&t, 40), Some(4));
    assert_eq!(checked_wrapped_line_count(&chars(""), 0), Some(1));
    // wide characters take two columns
    assert_eq!(wrapped_line_count(&chars("日本 語"), 4), 2);
}

#[test]
fn splitting_on_spaces_keeps_empty_pieces() {
    let words: Vec<String> = split_words(&chars(" a  b ")).iter().map(|w| text(w)).collect();
    assert_eq!(words, vec!["", "a", "", "b", ""]);
    let std_words: Vec<&str> = " a  b ".split(' ').collect();
    assert_eq!(words, std_words);
}

#[test]
fn screen_layout() {
    assert_eq!(
        browser_layout(100, 30, 2),
        BrowserLayout { left_width: 80, right_width: 20, list_rows: 26, footer_height: 2 }
    );
    // the key help never takes more than the height less four, nor less than one line
    assert_eq!(
        browser_layout(10, 6, 15),
        BrowserLayout { left_width: 8, right_width: 2, list_rows: 2, footer_height: 2 }
    );
    assert_eq!(
        browser_layout(10, 3, 15),
        BrowserLayout { left_width: 8, right_width: 2, list_rows: 0, footer_height: 1 }
    );
    assert_eq!(browser_layout(0, 0, 0).footer_height, 1);
}

#[test]
fn listing_labels() {
    let mut c = ChosenOptions::new(&path("/r"));
    c.cycle_path(&path("/r/docs"), true);
    c.cycle_path(&path("/r/docs"), true);
    let dir = VisibleEntry::Child { path: path("/r/docs"), is_dir: true };
    assert_eq!(text(&entry_label(&dir, &c)), "  [I] docs/");
    let file = VisibleEntry::Child { path: path("/r/a.txt"), is_dir: false };
    assert_eq!(text(&entry_label(&file, &c)), "  [*] a.txt");
    let link = VisibleEntry::Symlink { path: path("/r/l"), target: b"../t".to_vec(), target_is_dir: true };
    assert_eq!(text(&entry_label(&link, &c)), "  [*] l/ -> ../t");
    assert_eq!(text(&entry_label(&VisibleEntry::ParentDir, &c)), "  ..");
    c.cycle_path(&path("/r/docs"), true);
    assert_eq!(text(&entry_label(&dir, &c)), "  [*] docs/");
    c.cycle_path(&path("/r/docs"), true);
    assert_eq!(text(&entry_label(&dir, &c)), "  [ ] docs/");
}

#[test]
fn extension_labels() {
    assert_eq!(text(&extension_label(ArchiveOption::Compress, &chars("jpg"), 1024)), "[*] jpg  1.00 KiB");
    assert_eq!(text(&extension_label(ArchiveOption::Exclude, &chars(""), 500)), "[ ] (none)  500 B");
    assert_eq!(text(&extension_label(ArchiveOption::Include, &chars("iso"), 3 * 1024 * 1024 * 1024)), "[I] iso  3.00 GiB");
}

#[test]
fn path_line() {
    assert_eq!(text(&title(&path("/home/u/data"), &path("/home/u/data"))), "  Current directory: /data");
    assert_eq!(text(&title(&path("/home/u/data/a/b"), &path("/home/u/data"))), "  Current directory: /data/a/b");
    assert_eq!(text(&title(&path("/x"), &FsPath::root_dir())), "  Current directory: ///x");
}

#[test]
fn greedy_walk_visits_every_image_once() {
    let mut walk = VisitOrder::new(5);
    assert_eq!(walk.current(), 0);
    assert!(!walk.is_complete());
    // nearest first: the current image itself, then 3
    assert_eq!(walk.step(&vec![0, 3, 1]), 3);
    assert_eq!(walk.current(), 3);
    // all neighbours found are used: the lowest unused index
    assert_eq!(walk.step(&vec![3, 0]), 1);
    assert_eq!(walk.step(&vec![]), 2);
    assert_eq!(walk.step(&vec![2, 1, 0, 3, 4]), 4);
    assert!(walk.is_complete());
    assert_eq!(walk.into_sequence(), vec![0, 3, 1, 2, 4]);
}

#[test]
fn single_image_walk_is_complete() {
    let walk = VisitOrder::new(1);
    assert!(walk.is_complete());
    assert_eq!(walk.into_sequence(), vec![0]);
}

#[test]
fn images_reordered_and_canvas() {
    let imgs: Vec<ImageInfo> = vec![
        oriented(path("/r/a.png"), 100, 50),
        oriented(path("/r/b.png"), 30, 200),
        oriented(path("/r/c.png"), 120, 10),
    ];
    assert_eq!(canvas_size(&imgs), (200, 50));
    assert_eq!(canvas_size(&vec![]), (0, 0));
    let r = reorder(&imgs, &vec![2, 0, 1]);
    let names: Vec<String> = r.iter().map(|i| String::from_utf8(i.path.parts[1].clone()).unwrap()).collect();
    assert_eq!(names, vec!["c.png", "a.png", "b.png"]);
    assert!(r[2].rotate);
    assert_eq!((r[2].width, r[2].height), (200, 30));
}

#[test]
fn wider_areas_never_need_more_lines() {
    let t = chars("one two three four five six seven eight nine ten eleven twelve");
    let mut last = usize::MAX;
    for w in 0u16..80 {
        let n = wrapped_line_count(&t, w);
        assert!(n <= last, "width {} took {} lines, narrower took {}", w, n, last);
        last = n;
    }
}

fn ratatui_centered(px: u16, py: u16, r: ratatui::layout::Rect) -> ratatui::layout::Rect {
    let rows = Layout::default()
        .direction(Direction::Vertical)
        .constraints([Constraint::Percentage((100 - py) / 2), Constraint::Percentage(py), Constraint::Percentage((100 - py) / 2)])
        .split(r);
    Layout::default()
        .direction(Direction::Horizontal)
        .constraints([Constraint::Percentage((100 - px) / 2), Constraint::Percentage(px), Constraint::Percentage((100 - px) / 2)])
        .split(rows[1])[1]
}

#[test]
fn popup_is_centred() {
    assert_eq!(centered_rect(50, 50, (0, 0, 100, 40)), (25, 10, 50, 20));
    for &(px, py, w, h) in &[(55u16, 7u16, 120u16, 40u16), (55, 7, 80, 24), (100, 100, 30, 10), (0, 0, 30, 10)] {
        let r = ratatui::layout::Rect::new(2, 3, w, h);
        let e = ratatui_centered(px, py, r);
        assert_eq!(centered_rect(px, py, (2, 3, w, h)), (e.x, e.y, e.width, e.height));
    }
}
