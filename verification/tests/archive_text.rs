use archiver::choices::ChosenOptions;
use archiver::listing::{FileRecord, files_list_text, nested_member_patch, resized_member_header, split_files, display_name, member_name};
use archiver::metadata::{FileMeta, encode_table, header_row, image_row};
use archiver::ordering::{ImageInfo, oriented};
use archiver::paths::FsPath;
use archiver::storage::{path_bytes, state_file_name};

fn path(s: &str) -> FsPath {
    FsPath::from_parts(s.split('/').filter(|c| !c.is_empty()).map(|c| c.as_bytes().to_vec()).collect())
}

fn rec(s: &str, mtime: u64, size: u64) -> FileRecord {
    FileRecord { path: path(s), in_tree: true, mtime, size }
}

fn text(v: &[char]) -> String {
    v.iter().collect()
}

fn shown(recs: &[FileRecord], root: &FsPath) -> Vec<String> {
    recs.iter().map(|r| text(&display_name(&r.path, r.in_tree, root))).collect()
}

#[test]
fn files_are_split_by_option() {
    let root = path("/r");
    let mut c = ChosenOptions::new(&root);
    c.cycle_path(&path("/r/a/b.txt"), false);
    c.cycle_path(&path("/r/a/b.txt"), false);
    c.cycle_path(&path("/r/x"), false);
    let files = vec![rec("/r/a/b.txt", 5, 7), rec("/r/c", 1, 2), rec("/r/x", 3, 4), rec("/r/p.png", 9, 9)];
    let (un, co) = split_files(&c, &files, &None, &b"id".to_vec(), 100);
    assert_eq!(shown(&un, &root), vec!["a/b.txt"]);
    assert_eq!(shown(&co, &root), vec!["c", "p.png"]);

    let opt = Some(vec![path("/r/p.png")]);
    let (un, co) = split_files(&c, &files, &opt, &b"id".to_vec(), 100);
    assert_eq!(shown(&un, &root), vec!["id.mkv", "a/b.txt"]);
    assert_eq!(shown(&co, &root), vec!["id.csv", "c"]);
    assert_eq!((un[0].mtime, un[0].size, un[0].in_tree), (100, 0, false));

    let listing = files_list_text(&opt, &un, &co, &root);
    assert_eq!(
        text(&listing),
        "optimized\np.png\nuncompressed\nid.mkv\t100\t0\na/b.txt\t5\t7\ncompressed\nid.csv\t100\t0\nc\t1\t2\n"
    );
}

#[test]
fn empty_sections_are_left_out() {
    let root = path("/r");
    let listing = files_list_text(&None, &vec![], &vec![rec("/r/z", 0, 0)], &root);
    assert_eq!(text(&listing), "compressed\nz\t0\t0\n");
    assert_eq!(text(&files_list_text(&None, &vec![], &vec![], &root)), "");
    assert_eq!(text(&files_list_text(&Some(vec![]), &vec![], &vec![], &root)), "optimized\n");
}

#[test]
fn names_outside_the_root_stay_absolute() {
    let root = path("/r");
    assert_eq!(text(&display_name(&path("/etc/x"), true, &root)), "/etc/x");
    assert_eq!(text(&display_name(&path("/r"), true, &root)), "");
    let bad = FsPath::from_parts(vec![b"r".to_vec(), vec![0x66, 0xff]]);
    assert_eq!(text(&display_name(&bad, true, &root)), "f\u{FFFD}");
}

#[test]
fn nested_member_size_patch() {
    assert_eq!(nested_member_patch(2048, 4096), Some((2048, 1536)));
    assert_eq!(nested_member_patch(2048, 3071), None);
    assert_eq!(nested_member_patch(3000, 2000), None);
    assert_eq!(nested_member_patch(100, 5000), None);
}

#[test]
fn state_file_name_is_md5_of_root() {
    assert_eq!(String::from_utf8(path_bytes(&path("/home/u/data"))).unwrap(), "/home/u/data");
    assert_eq!(text(&state_file_name(&FsPath::root_dir())), "6666CD76F96956469E7BE39D750CC7D9");
    assert_eq!(text(&state_file_name(&path("/home/u/data"))), "27C9658A717FC2C7EA09C4B0CCF4FEAA");
}

#[test]
fn metadata_table() {
    let root = path("/r");
    let img: ImageInfo = oriented(path("/r/pics/a.png"), 480, 640);
    assert!(img.rotate);
    assert_eq!((img.width, img.height), (640, 480));
    let meta = Some(FileMeta { mode: 0o100644, uid: 1000, gid: 100, mtime: Some(1725029869) });
    let row = image_row(&img, &root, &meta, &Some(b"Exif\x00\x01".to_vec()));
    let fields: Vec<String> = row.iter().map(|f| text(f)).collect();
    assert_eq!(fields, vec!["pics/a.png", "640x480", "1", "100644", "1000", "100", "1725029869", "RXhpZgAB"]);
    let plain = oriented(path("/r/b.jpg"), 10, 10);
    let row2 = image_row(&plain, &root, &None, &None);
    let table = encode_table(&vec![header_row(), row, row2]).unwrap();
    assert_eq!(
        String::from_utf8(table).unwrap(),
        "filename,resolution,rotated,mode,owner_uid,owner_gid,mtime,exif_metadata\n\
         pics/a.png,640x480,1,100644,1000,100,1725029869,RXhpZgAB\n\
         b.jpg,10x10,,,,,,\n"
    );
}

#[test]
fn csv_fields_are_quoted_when_needed() {
    let row = vec![vec!['a', ',', 'b'], vec!['"'], vec![]];
    let table = encode_table(&vec![row]).unwrap();
    assert_eq!(String::from_utf8(table).unwrap(), "\"a,b\",\"\"\"\",\n");
    assert_eq!(encode_table(&vec![]).unwrap(), Vec::<u8>::new());
}

#[test]
fn nested_member_header_gets_the_real_size() {
    let mut h = tar::Header::new_gnu();
    h.set_size(0);
    h.set_cksum();
    let before = h.as_bytes().to_vec();
    let after = resized_member_header(&before, 4096);
    assert_eq!(after.len(), 512);
    assert_ne!(after, before);
    let parsed = tar::Header::from_byte_slice(&after);
    assert_eq!(parsed.size().unwrap(), 4096);
    assert_eq!(&after[124..136], b"00000010000\0");
    // the size and checksum fields changed, nothing else
    assert_eq!(&after[..124], &before[..124]);
    assert_eq!(&after[136..148], &before[136..148]);
    assert_eq!(&after[156..], &before[156..]);
    // the checksum is that of the new header
    let sum: u32 = after
        .iter()
        .enumerate()
        .map(|(i, b)| if (148..156).contains(&i) { 32 } else { *b as u32 })
        .sum();
    assert_eq!(parsed.cksum().unwrap(), sum);
    let mut expected = tar::Header::from_byte_slice(&before).clone();
    expected.set_size(4096);
    expected.set_cksum();
    assert_eq!(&after[..], &expected.as_bytes()[..]);
}

#[test]
fn nested_member_header_with_a_huge_size_uses_the_binary_form() {
    let mut h = tar::Header::new_gnu();
    h.set_size(0);
    h.set_cksum();
    let before = h.as_bytes().to_vec();
    let size: u64 = 8589934592;
    let after = resized_member_header(&before, size);
    assert_eq!(&after[124..136], &[0x80u8, 0, 0, 0, 0, 0, 0, 2, 0, 0, 0, 0][..]);
    let parsed = tar::Header::from_byte_slice(&after);
    assert_eq!(parsed.size().unwrap(), size);
    let sum: u32 = after
        .iter()
        .enumerate()
        .map(|(i, b)| if (148..156).contains(&i) { 32 } else { *b as u32 })
        .sum();
    assert_eq!(parsed.cksum().unwrap(), sum);
}

#[test]
fn member_names_are_relative_to_the_root() {
    let root = path("/r");
    let (p, abs) = member_name(&rec("/r/a/b.txt", 0, 1), &root);
    assert_eq!(p.parts, path("a/b.txt").parts);
    assert!(!abs);
    let (p, abs) = member_name(&rec("/elsewhere/c", 0, 1), &root);
    assert_eq!(p.parts, path("/elsewhere/c").parts);
    assert!(abs);
    let generated = FileRecord { path: path("id.mkv"), in_tree: false, mtime: 0, size: 0 };
    let (p, abs) = member_name(&generated, &root);
    assert_eq!(p.parts, path("id.mkv").parts);
    assert!(!abs);
}
