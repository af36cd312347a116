use vstd::prelude::*;
use crate::option::{ArchiveOption, spec_marker};
use crate::paths::{FsPath, is_prefix, strip_root};
use crate::choices::ChosenOptions;
use crate::browser::{VisibleEntry, VisibleView};
use crate::codecs::{human_bytes, spec_human_bytes};
use crate::text::{append_chars, decode_lossy, spec_decode_lossy};

verus! {

/// The name shown for a path: its last component, decoded lossily (empty for `/`).
pub open spec fn shown_name(p: Seq<Seq<u8>>) -> Seq<char> {
    spec_decode_lossy(if p.len() == 0 {
        Seq::<u8>::empty()
    } else {
        p.last()
    })
}

/// The text of a listing line: `  ..`, or `  [m] name` with `/` after
/// directories and ` -> target` after symbolic links, `m` being the marker
/// of the entry's effective option.
pub open spec fn spec_entry_label(line: VisibleView, c: ChosenOptions) -> Seq<char> {
    match line {
        VisibleView::ParentDir => seq![' ', ' ', '.', '.'],
        VisibleView::Child(p, d) => seq![' ', ' ', '[', spec_marker(c.effective(p)), ']', ' '] + shown_name(p) + (if d {
            seq!['/']
        } else {
            Seq::empty()
        }),
        VisibleView::Symlink(p, t, d) => seq![' ', ' ', '[', spec_marker(c.effective(p)), ']', ' '] + shown_name(p) + (if d {
            seq!['/']
        } else {
            Seq::empty()
        }) + seq![' ', '-', '>', ' '] + spec_decode_lossy(t),
    }
}

/// The text of an extension line: `[m] ext  size`, with `(none)` for files
/// without extension and the size in binary units.
pub open spec fn spec_extension_label(o: ArchiveOption, ext: Seq<char>, size: u64) -> Seq<char> {
    seq!['[', spec_marker(o), ']', ' '] + (if ext.len() == 0 {
        seq!['(', 'n', 'o', 'n', 'e', ')']
    } else {
        ext
    }) + seq![' ', ' '] + spec_human_bytes(size)
}

fn name_text(p: &FsPath) -> (r: Vec<char>)
    ensures
        r@ == shown_name(p@),
{
    let n = p.parts.len();
    if n == 0 {
        let empty: Vec<u8> = Vec::new();
        assert(empty@ =~= Seq::<u8>::empty());
        decode_lossy(&empty)
    } else {
        decode_lossy(&p.parts[n - 1])
    }
}

/// The text of a listing line.
pub fn entry_label(line: &VisibleEntry, choices: &ChosenOptions) -> (r: Vec<char>)
    ensures
        r@ == spec_entry_label(line.view_of(), *choices),
        line.view_of() matches VisibleView::Symlink(p, t, false) ==> r@ == seq![' ', ' ', '[', spec_marker(choices.effective(p)), ']', ' ']
            + shown_name(p) + seq![' ', '-', '>', ' '] + spec_decode_lossy(t),
        line.view_of() matches VisibleView::Child(p, false) ==> r@ == seq![' ', ' ', '[', spec_marker(choices.effective(p)), ']', ' ']
            + shown_name(p),
{
    proof {
        match line.view_of() {
            VisibleView::Symlink(p, t, _) => lemma_entry_label_shapes(p, t, *choices),
            VisibleView::Child(p, _) => lemma_entry_label_shapes(p, Seq::empty(), *choices),
            _ => {},
        }
    }
    match line {
        VisibleEntry::ParentDir => {
            let r = vec![' ', ' ', '.', '.'];
            assert(r@ =~= seq![' ', ' ', '.', '.']);
            r
        },
        VisibleEntry::Child { path, is_dir } => {
            let mut r = vec![' ', ' ', '[', choices.effective_option(path).to_char(), ']', ' '];
            append_chars(&mut r, &name_text(path));
            if *is_dir {
                r.push('/');
            }
            assert(r@ =~= spec_entry_label(line.view_of(), *choices));
            r
        },
        VisibleEntry::Symlink { path, target, target_is_dir } => {
            let mut r = vec![' ', ' ', '[', choices.effective_option(path).to_char(), ']', ' '];
            append_chars(&mut r, &name_text(path));
            if *target_is_dir {
                r.push('/');
            }
            let arrow = vec![' ', '-', '>', ' '];
            append_chars(&mut r, &arrow);
            append_chars(&mut r, &decode_lossy(target));
            assert(r@ =~= spec_entry_label(line.view_of(), *choices));
            r
        },
    }
}

/// The text of an extension line.
pub fn extension_label(o: ArchiveOption, ext: &Vec<char>, size: u64) -> (r: Vec<char>)
    ensures
        r@ == spec_extension_label(o, ext@, size),
{
    let mut r = vec!['[', o.to_char(), ']', ' '];
    if ext.len() == 0 {
        let none = vec!['(', 'n', 'o', 'n', 'e', ')'];
        append_chars(&mut r, &none);
    } else {
        append_chars(&mut r, ext);
    }
    let gap = vec![' ', ' '];
    append_chars(&mut r, &gap);
    append_chars(&mut r, &human_bytes(size));
    assert(r@ =~= spec_extension_label(o, ext@, size));
    r
}

/// The components shown after the root's name in the path line.
pub open spec fn relative_parts(current: Seq<Seq<u8>>, root: Seq<Seq<u8>>) -> Seq<Seq<u8>> {
    if is_prefix(root, current) {
        strip_root(current, root)
    } else {
        Seq::empty()
    }
}

/// Names joined with `/`.
pub open spec fn join_names(names: Seq<Seq<char>>) -> Seq<char>
    decreases names.len(),
{
    if names.len() == 0 {
        Seq::empty()
    } else if names.len() == 1 {
        names[0]
    } else {
        join_names(names.drop_last()) + seq!['/'] + names.last()
    }
}

/// The name shown for the root directory: its last component, or `/` itself.
pub open spec fn root_name(root: Seq<Seq<u8>>) -> Seq<char> {
    if root.len() == 0 {
        spec_decode_lossy(seq![47u8])
    } else {
        spec_decode_lossy(root.last())
    }
}

/// The names shown in the path line: the root's name, then each component
/// below it, decoded lossily.
pub open spec fn shown_path(current: Seq<Seq<u8>>, root: Seq<Seq<u8>>) -> Seq<Seq<char>> {
    seq![root_name(root)] + relative_parts(current, root).map_values(|c: Seq<u8>| spec_decode_lossy(c))
}

/// The path line: `  Current directory: /` and the shown names joined with `/`.
pub open spec fn spec_title(current: Seq<Seq<u8>>, root: Seq<Seq<u8>>) -> Seq<char> {
    seq![' ', ' ', 'C', 'u', 'r', 'r', 'e', 'n', 't', ' ', 'd', 'i', 'r', 'e', 'c', 't', 'o', 'r', 'y', ':', ' ', '/']
        + join_names(shown_path(current, root))
}

/// The path line of the browser for directory `current` below `root`.
pub fn title(current: &FsPath, root: &FsPath) -> (r: Vec<char>)
    ensures
        r@ == spec_title(current@, root@),
{
    let mut r = vec![' ', ' ', 'C', 'u', 'r', 'r', 'e', 'n', 't', ' ', 'd', 'i', 'r', 'e', 'c', 't', 'o', 'r', 'y', ':', ' ', '/'];
    let ghost head = r@;
    let n = root.parts.len();
    let first: Vec<char> = if n == 0 {
        let slash: Vec<u8> = vec![47u8];
        assert(slash@ =~= seq![47u8]);
        decode_lossy(&slash)
    } else {
        decode_lossy(&root.parts[n - 1])
    };
    append_chars(&mut r, &first);
    let rel: FsPath = if current.starts_with(root) {
        current.remove_root(root)
    } else {
        FsPath::root_dir()
    };
    let ghost names = shown_path(current@, root@);
    let ghost rv = rel@;
    assert(rv == relative_parts(current@, root@));
    assert(names.subrange(0, 1) =~= seq![root_name(root@)]);
    let mut i: usize = 0;
    while i < rel.parts.len()
        invariant
            rv == rel@,
            names == seq![root_name(root@)] + rv.map_values(|c: Seq<u8>| spec_decode_lossy(c)),
            i <= rv.len(),
            r@ == head + join_names(names.subrange(0, i + 1)),
        decreases rv.len() - i,
    {
        let part = decode_lossy(&rel.parts[i]);
        r.push('/');
        append_chars(&mut r, &part);
        let ghost next = names.subrange(0, i + 2);
        assert(next.drop_last() =~= names.subrange(0, i + 1));
        assert(next.last() == spec_decode_lossy(rv[i as int]));
        assert(r@ =~= head + join_names(next));
        i = i + 1;
    }
    assert(names.subrange(0, i + 1) =~= names);
    r
}

/// How the listing lines relate: a file's line is the marker and the name;
/// a directory's line is the same with `/` added; a link's line is the line
/// its target kind would give (so `/` only when the link leads to a
/// directory) followed by ` -> ` and the target.
pub proof fn lemma_entry_label_shapes(p: Seq<Seq<u8>>, t: Seq<u8>, c: ChosenOptions)
    ensures
        spec_entry_label(VisibleView::Child(p, false), c)
            == seq![' ', ' ', '[', spec_marker(c.effective(p)), ']', ' '] + shown_name(p),
        spec_entry_label(VisibleView::Child(p, true), c) == spec_entry_label(VisibleView::Child(p, false), c).push('/'),
        spec_entry_label(VisibleView::Symlink(p, t, false), c)
            == spec_entry_label(VisibleView::Child(p, false), c) + seq![' ', '-', '>', ' '] + spec_decode_lossy(t),
        spec_entry_label(VisibleView::Symlink(p, t, true), c)
            == spec_entry_label(VisibleView::Child(p, true), c) + seq![' ', '-', '>', ' '] + spec_decode_lossy(t),
{
    let head = seq![' ', ' ', '[', spec_marker(c.effective(p)), ']', ' '] + shown_name(p);
    assert(head + seq!['/'] =~= head.push('/'));
    assert(head + Seq::<char>::empty() =~= head);
    assert(head + Seq::<char>::empty() + seq![' ', '-', '>', ' '] + spec_decode_lossy(t) =~= head + seq![' ', '-', '>', ' '] + spec_decode_lossy(t));
}

/// The `..` line reads `  ..`, and every other line starts with the
/// marker of the entry's effective option in brackets.
pub proof fn lemma_entry_label_marker(line: VisibleView, c: ChosenOptions)
    ensures
        line == VisibleView::ParentDir ==> spec_entry_label(line, c) == seq![' ', ' ', '.', '.'],
        line matches VisibleView::Child(p, _) ==> spec_entry_label(line, c).subrange(0, 6)
            == seq![' ', ' ', '[', spec_marker(c.effective(p)), ']', ' '],
        line matches VisibleView::Symlink(p, _, _) ==> spec_entry_label(line, c).subrange(0, 6)
            == seq![' ', ' ', '[', spec_marker(c.effective(p)), ']', ' '],
{
    match line {
        VisibleView::Child(p, d) => {
            let head = seq![' ', ' ', '[', spec_marker(c.effective(p)), ']', ' '];
            let rest = shown_name(p) + (if d { seq!['/'] } else { Seq::<char>::empty() });
            assert(spec_entry_label(line, c) =~= head + rest);
            assert((head + rest).subrange(0, 6) =~= head);
        },
        VisibleView::Symlink(p, t, d) => {
            let head = seq![' ', ' ', '[', spec_marker(c.effective(p)), ']', ' '];
            let rest = shown_name(p) + (if d { seq!['/'] } else { Seq::<char>::empty() }) + seq![' ', '-', '>', ' '] + spec_decode_lossy(t);
            assert(spec_entry_label(line, c) =~= head + rest);
            assert((head + rest).subrange(0, 6) =~= head);
        },
        _ => {},
    }
}

} // verus!
