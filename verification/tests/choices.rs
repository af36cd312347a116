use archiver::option::ArchiveOption;
use archiver::paths::FsPath;
use archiver::choices::ChosenOptions;

fn path(s: &str) -> FsPath {
    FsPath::from_parts(s.split('/').filter(|c| !c.is_empty()).map(|c| c.as_bytes().to_vec()).collect())
}

fn chars(s: &str) -> Vec<char> {
    s.chars().collect()
}

#[test]
fn fresh_choices_give_compress_everywhere() {
    let c = ChosenOptions::new(&path("/data"));
    for p in ["/data", "/data/a.txt", "/data/x/y/z.png", "/etc/passwd", "/"] {
        assert_eq!(c.effective_option(&path(p)), ArchiveOption::Compress);
    }
}

#[test]
fn own_choice_beats_extension_beats_parent() {
    let root = path("/data");
    let c = ChosenOptions::from_entries(
        vec![
            (path("/data/pics"), ArchiveOption::Exclude),
            (path("/data/pics/keep.png"), ArchiveOption::Include),
        ],
        vec![(chars("png"), ArchiveOption::Compress), (chars("txt"), ArchiveOption::Include)],
        root,
    );
    assert_eq!(c.effective_option(&path("/data/pics/keep.png")), ArchiveOption::Include);
    // extension override, compared in lowercase
    assert_eq!(c.effective_option(&path("/data/pics/other.PNG")), ArchiveOption::Compress);
    assert_eq!(c.effective_option(&path("/data/notes.TXT")), ArchiveOption::Include);
    // inherited from the nearest chosen parent
    assert_eq!(c.effective_option(&path("/data/pics/sub/raw.cr2")), ArchiveOption::Exclude);
    // nothing applies
    assert_eq!(c.effective_option(&path("/data/other/raw.cr2")), ArchiveOption::Compress);
}

#[test]
fn inheritance_stops_at_the_root() {
    let c = ChosenOptions::from_entries(
        vec![(path("/data"), ArchiveOption::Include), (path("/"), ArchiveOption::Exclude)],
        vec![],
        path("/data/inner"),
    );
    // the walk looks at the root itself, but not above it
    assert_eq!(c.effective_option(&path("/data/inner/f")), ArchiveOption::Compress);
    // a path outside the root walks all the way up
    assert_eq!(c.effective_option(&path("/data/other/f")), ArchiveOption::Include);
    assert_eq!(c.effective_option(&path("/srv/f")), ArchiveOption::Exclude);
}

#[test]
fn cycling_a_directory_drops_choices_inside_it() {
    let root = path("/r");
    let mut c = ChosenOptions::new(&root);
    c.cycle_path(&path("/r/d/f.txt"), false);
    assert_eq!(c.effective_option(&path("/r/d/f.txt")), ArchiveOption::Exclude);
    c.cycle_path(&path("/r/d/sub"), true);
    assert_eq!(c.path_list().len(), 2);
    // the directory: Compress -> Exclude
    c.cycle_path(&path("/r/d"), true);
    assert_eq!(c.effective_option(&path("/r/d")), ArchiveOption::Exclude);
    // everything inside follows it
    assert_eq!(c.path_list().len(), 1);
    assert_eq!(c.effective_option(&path("/r/d/f.txt")), ArchiveOption::Exclude);
    assert_eq!(c.effective_option(&path("/r/d/sub/deep.bin")), ArchiveOption::Exclude);
    c.cycle_path(&path("/r/d"), true);
    assert_eq!(c.effective_option(&path("/r/d/f.txt")), ArchiveOption::Include);
    // outside the directory nothing changed
    assert_eq!(c.effective_option(&path("/r/e.txt")), ArchiveOption::Compress);
}

#[test]
fn cycling_a_file_keeps_its_siblings() {
    let mut c = ChosenOptions::new(&path("/r"));
    c.cycle_path(&path("/r/a"), false);
    c.cycle_path(&path("/r/a"), false);
    assert_eq!(c.effective_option(&path("/r/a")), ArchiveOption::Include);
    assert_eq!(c.effective_option(&path("/r/b")), ArchiveOption::Compress);
    // a file "directory" flag off keeps choices below a same-named path
    c.cycle_path(&path("/r/a/x"), false);
    assert_eq!(c.effective_option(&path("/r/a/x")), ArchiveOption::Compress);
    c.cycle_path(&path("/r/a/x"), false);
    c.cycle_path(&path("/r/a"), false);
    assert_eq!(c.effective_option(&path("/r/a/x")), ArchiveOption::Exclude);
    assert_eq!(c.effective_option(&path("/r/a")), ArchiveOption::Compress);
}

#[test]
fn cycling_an_extension() {
    let mut c = ChosenOptions::new(&path("/r"));
    assert_eq!(c.ext_option(&chars("jpg")), ArchiveOption::Compress);
    c.cycle_extension(&chars("jpg"));
    assert_eq!(c.ext_option(&chars("jpg")), ArchiveOption::Exclude);
    assert_eq!(c.effective_option(&path("/r/x/IMG.JPG")), ArchiveOption::Exclude);
    c.cycle_extension(&chars("jpg"));
    c.cycle_extension(&chars("jpg"));
    assert_eq!(c.ext_option(&chars("jpg")), ArchiveOption::Compress);
    assert_eq!(c.ext_list().len(), 1);
    assert_eq!(c.ext_option(&chars("png")), ArchiveOption::Compress);
    assert_eq!(c.root().parts, path("/r").parts);
}

fn copy(c: &ChosenOptions, reverse: bool) -> ChosenOptions {
    let mut paths: Vec<(FsPath, ArchiveOption)> = c.path_list().iter().map(|(p, o)| (p.duplicate(), *o)).collect();
    let mut exts: Vec<(Vec<char>, ArchiveOption)> = c.ext_list().iter().map(|(e, o)| (e.clone(), *o)).collect();
    if reverse {
        paths.reverse();
        exts.reverse();
    }
    ChosenOptions::from_entries(paths, exts, c.root().duplicate())
}

#[test]
fn restored_choices_match_saved_ones() {
    let mut c = ChosenOptions::new(&path("/r"));
    c.cycle_path(&path("/r/a"), true);
    c.cycle_path(&path("/r/a/b"), false);
    c.cycle_path(&path("/r/c.txt"), false);
    c.cycle_path(&path("/r/c.txt"), false);
    c.cycle_extension(&chars("txt"));
    c.cycle_extension(&chars("png"));
    c.cycle_extension(&chars("png"));
    let restored = copy(&c, true);
    for p in ["/r", "/r/a", "/r/a/b", "/r/a/x.png", "/r/c.txt", "/r/d.txt", "/r/e.png", "/r/f"] {
        assert_eq!(restored.effective_option(&path(p)), c.effective_option(&path(p)), "{}", p);
    }
}

#[test]
fn cycling_a_directory_changes_nothing_outside_it() {
    let mut c = ChosenOptions::new(&path("/r"));
    c.cycle_extension(&chars("log"));
    c.cycle_extension(&chars("log"));
    c.cycle_path(&path("/r/keep/x"), false);
    let outside = ["/r/keep/x", "/r/ab", "/r/a.log", "/r", "/r/keep"];
    let before: Vec<ArchiveOption> = outside.iter().map(|p| c.effective_option(&path(p))).collect();
    c.cycle_path(&path("/r/a"), true);
    let after: Vec<ArchiveOption> = outside.iter().map(|p| c.effective_option(&path(p))).collect();
    assert_eq!(before, after);
    // inside, files with an extension override keep it
    assert_eq!(c.effective_option(&path("/r/a/z.log")), ArchiveOption::Include);
    assert_eq!(c.effective_option(&path("/r/a/z.dat")), ArchiveOption::Exclude);
}
