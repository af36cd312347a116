use archiver::option::ArchiveOption;
use archiver::paths::FsPath;
use archiver::digits::{decimal, octal, hex_upper};
use archiver::text::{bytes_eq, chars_eq};

fn path(s: &str) -> FsPath {
    FsPath::from_parts(s.split('/').filter(|c| !c.is_empty()).map(|c| c.as_bytes().to_vec()).collect())
}

fn text(v: &[char]) -> String {
    v.iter().collect()
}

#[test]
fn next_cycles_through_all_options() {
    assert_eq!(ArchiveOption::Exclude.next(), ArchiveOption::Include);
    assert_eq!(ArchiveOption::Include.next(), ArchiveOption::Compress);
    assert_eq!(ArchiveOption::Compress.next(), ArchiveOption::Exclude);
    for o in [ArchiveOption::Exclude, ArchiveOption::Include, ArchiveOption::Compress] {
        assert_eq!(o.next().next().next(), o);
        assert_ne!(o.next(), o);
    }
}

#[test]
fn markers_and_default() {
    assert_eq!(ArchiveOption::Exclude.to_char(), ' ');
    assert_eq!(ArchiveOption::Include.to_char(), 'I');
    assert_eq!(ArchiveOption::Compress.to_char(), '*');
    assert_eq!(ArchiveOption::default(), ArchiveOption::Compress);
    assert!(!ArchiveOption::Exclude.is_archived());
    assert!(ArchiveOption::Include.is_archived());
    assert!(ArchiveOption::Compress.is_archived());
}

#[test]
fn extension_follows_std_rules() {
    let ext = |s: &str| path(s).extension().map(|e| String::from_utf8(e).unwrap());
    assert_eq!(ext("/a/photo.JPG"), Some("JPG".to_string()));
    assert_eq!(ext("/a/archive.tar.gz"), Some("gz".to_string()));
    assert_eq!(ext("/a/.bashrc"), None);
    assert_eq!(ext("/a/README"), None);
    assert_eq!(ext("/a/trailing."), Some(String::new()));
    assert_eq!(ext("/a/..x"), Some("x".to_string()));
    assert_eq!(ext("/"), None);
    for s in ["/a/photo.JPG", "/a/archive.tar.gz", "/a/.bashrc", "/a/README", "/a/trailing.", "/a/..x"] {
        let std_ext = std::path::Path::new(s).extension().map(|e| e.to_str().unwrap().to_string());
        assert_eq!(ext(s), std_ext);
    }
}

#[test]
fn parent_prefix_and_remove_root() {
    let p = path("/home/u/docs/a.txt");
    let root = path("/home/u");
    assert!(p.starts_with(&root));
    assert!(root.starts_with(&root));
    assert!(!root.starts_with(&p));
    assert!(!path("/home/user").starts_with(&root));
    let rel = p.remove_root(&root);
    assert_eq!(rel.parts, vec![b"docs".to_vec(), b"a.txt".to_vec()]);
    let outside = path("/etc/x");
    assert_eq!(outside.remove_root(&root).parts, outside.parts);
    assert_eq!(p.parent().unwrap().parts, path("/home/u/docs").parts);
    assert!(FsPath::root_dir().parent().is_none());
    assert!(p.equals(&path("/home/u/docs/a.txt")));
    assert!(!p.equals(&root));
    assert_eq!(root.join(&b"x".to_vec()).parts, path("/home/u/x").parts);
    assert_eq!(p.depth(), 4);
}

#[test]
fn number_formatting() {
    assert_eq!(text(&decimal(0)), "0");
    assert_eq!(text(&decimal(1725029869)), "1725029869");
    assert_eq!(text(&decimal(u64::MAX)), u64::MAX.to_string());
    assert_eq!(text(&octal(0o100644)), "100644");
    assert_eq!(text(&octal(8)), "10");
    assert_eq!(text(&hex_upper(&vec![0x00, 0x0f, 0xa5, 0xff])), "000FA5FF");
    assert_eq!(text(&hex_upper(&vec![])), "");
}

#[test]
fn equality_helpers() {
    assert!(bytes_eq(&b"abc".to_vec(), &b"abc".to_vec()));
    assert!(!bytes_eq(&b"abc".to_vec(), &b"abd".to_vec()));
    assert!(!bytes_eq(&b"ab".to_vec(), &b"abc".to_vec()));
    assert!(chars_eq(&vec!['x'], &vec!['x']));
    assert!(!chars_eq(&vec!['x'], &vec!['X']));
}
