use archiver::browser::{Browser, BrowserAction, BrowserCommand, Panel, VisibleEntry, command_of};
use archiver::choices::ChosenOptions;
use archiver::entries::DirEntryInfo;
use archiver::keys::{Key, KeyPress};
use archiver::option::ArchiveOption;
use archiver::paths::FsPath;
use archiver::prompt::{PromptStep, prompt_step};

fn path(s: &str) -> FsPath {
    FsPath::from_parts(s.split('/').filter(|c| !c.is_empty()).map(|c| c.as_bytes().to_vec()).collect())
}

fn key(code: Key) -> KeyPress {
    KeyPress { code, ctrl: false, shift: false, press: true }
}

fn entry(s: &str, is_dir: bool) -> DirEntryInfo {
    DirEntryInfo { path: path(s), is_dir, link_target: None }
}

fn names(b: &Browser) -> Vec<String> {
    b.visible()
        .iter()
        .map(|v| match v {
            VisibleEntry::ParentDir => "..".to_string(),
            VisibleEntry::Child { path, .. } | VisibleEntry::Symlink { path, .. } => {
                String::from_utf8(path.parts.last().unwrap().clone()).unwrap()
            },
        })
        .collect()
}

fn root_browser() -> Browser {
    let root = path("/r");
    let choices = ChosenOptions::new(&root);
    let exts = vec![(vec!['t', 'x', 't'], 10u64), (vec!['j', 'p', 'g'], 5u64)];
    Browser::new(root, choices, exts, Some(vec![entry("/r/b.txt", false), entry("/r/sub", true)]))
}

#[test]
fn key_bindings() {
    assert_eq!(command_of(key(Key::Char('q'))), BrowserCommand::Quit);
    assert_eq!(command_of(KeyPress { code: Key::Char('c'), ctrl: true, shift: false, press: true }), BrowserCommand::Quit);
    assert_eq!(command_of(key(Key::Char('c'))), BrowserCommand::Nothing);
    assert_eq!(command_of(KeyPress { code: Key::Enter, ctrl: false, shift: true, press: true }), BrowserCommand::Confirm);
    assert_eq!(command_of(key(Key::Enter)), BrowserCommand::Descend);
    assert_eq!(command_of(key(Key::Right)), BrowserCommand::Descend);
    assert_eq!(command_of(key(Key::Left)), BrowserCommand::Parent);
    assert_eq!(command_of(key(Key::Char('h'))), BrowserCommand::Parent);
    assert_eq!(command_of(key(Key::Down)), BrowserCommand::Down);
    assert_eq!(command_of(key(Key::Char('j'))), BrowserCommand::Down);
    assert_eq!(command_of(key(Key::Up)), BrowserCommand::Up);
    assert_eq!(command_of(key(Key::Char('k'))), BrowserCommand::Up);
    assert_eq!(command_of(key(Key::Tab)), BrowserCommand::SwitchFocus);
    assert_eq!(command_of(key(Key::Char(' '))), BrowserCommand::Cycle);
    assert_eq!(command_of(key(Key::Char('r'))), BrowserCommand::Reset);
    assert_eq!(command_of(key(Key::Char('u'))), BrowserCommand::Undo);
    assert_eq!(command_of(key(Key::Esc)), BrowserCommand::Nothing);
    assert_eq!(command_of(KeyPress { code: Key::Char('q'), ctrl: false, shift: false, press: false }), BrowserCommand::Nothing);
}

#[test]
fn starts_at_root_with_sorted_listing() {
    let b = root_browser();
    assert_eq!(names(&b), vec!["sub", "b.txt"]);
    assert_eq!(b.selected(), Some(0));
    assert_eq!(b.ext_selected(), Some(0));
    assert_eq!(b.focus(), Panel::Left);
    assert!(!b.should_quit());
    assert_eq!(b.current_dir().parts, path("/r").parts);
}

#[test]
fn descend_and_go_back_up() {
    let mut b = root_browser();
    assert_eq!(b.handle_key(key(Key::Enter)), BrowserAction::Relist);
    assert_eq!(b.current_dir().parts, path("/r/sub").parts);
    b.refresh(Some(vec![entry("/r/sub/x", false)]));
    assert_eq!(names(&b), vec!["..", "x"]);
    assert_eq!(b.selected(), Some(0));
    // Enter on ".." goes up, like Left
    assert_eq!(b.handle_key(key(Key::Enter)), BrowserAction::Relist);
    assert_eq!(b.current_dir().parts, path("/r").parts);
    b.refresh(Some(vec![entry("/r/b.txt", false), entry("/r/sub", true)]));
    // at the root there is no way further up
    assert_eq!(b.handle_key(key(Key::Left)), BrowserAction::Redraw);
    assert_eq!(b.current_dir().parts, path("/r").parts);
}

#[test]
fn enter_on_a_file_does_nothing() {
    let mut b = root_browser();
    assert_eq!(b.handle_key(key(Key::Down)), BrowserAction::Redraw);
    assert_eq!(b.selected(), Some(1));
    assert_eq!(b.handle_key(key(Key::Enter)), BrowserAction::Redraw);
    assert_eq!(b.current_dir().parts, path("/r").parts);
}

#[test]
fn cursor_moves_saturate_and_refresh_clamps() {
    let mut b = root_browser();
    b.handle_key(key(Key::Up));
    assert_eq!(b.selected(), Some(0));
    b.handle_key(key(Key::Char('j')));
    b.handle_key(key(Key::Char('j')));
    b.handle_key(key(Key::Char('j')));
    assert_eq!(b.selected(), Some(3));
    b.refresh(Some(vec![entry("/r/only", false)]));
    assert_eq!(b.selected(), Some(0));
    b.refresh(None);
    assert!(b.visible().is_empty());
    assert_eq!(b.selected(), None);
    b.set_selection(Some(7));
    assert_eq!(b.selected(), Some(7));
}

#[test]
fn space_cycles_the_entry_under_the_cursor() {
    let mut b = root_browser();
    b.handle_key(key(Key::Char(' ')));
    assert_eq!(b.overrides().effective_option(&path("/r/sub")), ArchiveOption::Exclude);
    assert_eq!(b.overrides().effective_option(&path("/r/sub/deep/f")), ArchiveOption::Exclude);
    assert_eq!(b.overrides().effective_option(&path("/r/b.txt")), ArchiveOption::Compress);
    b.handle_key(key(Key::Char('r')));
    assert_eq!(b.overrides().effective_option(&path("/r/sub")), ArchiveOption::Compress);
}

#[test]
fn extension_panel_has_its_own_cursor() {
    let mut b = root_browser();
    assert_eq!(b.handle_key(key(Key::Tab)), BrowserAction::Redraw);
    assert_eq!(b.focus(), Panel::Right);
    b.handle_key(key(Key::Down));
    assert_eq!(b.ext_selected(), Some(1));
    assert_eq!(b.selected(), Some(0));
    b.handle_key(key(Key::Char(' ')));
    assert_eq!(b.overrides().ext_option(&vec!['j', 'p', 'g']), ArchiveOption::Exclude);
    assert_eq!(b.overrides().ext_option(&vec!['t', 'x', 't']), ArchiveOption::Compress);
    // descending and going up only work in the directory panel
    assert_eq!(b.handle_key(key(Key::Enter)), BrowserAction::Redraw);
    assert_eq!(b.handle_key(key(Key::Left)), BrowserAction::Redraw);
    b.handle_key(key(Key::Tab));
    assert_eq!(b.focus(), Panel::Left);
}

#[test]
fn quit_and_confirm() {
    let mut b = root_browser();
    assert_eq!(b.handle_key(key(Key::Char('q'))), BrowserAction::Quit);
    assert!(!b.should_quit());
    assert_eq!(b.handle_key(KeyPress { code: Key::Enter, ctrl: false, shift: true, press: true }), BrowserAction::Confirm);
    assert!(b.should_quit());
    let c = b.into_overrides();
    assert_eq!(c.root().parts, path("/r").parts);
}

#[test]
fn symlinked_directories_can_be_entered() {
    let root = path("/r");
    let mut b = Browser::new(
        path("/r"),
        ChosenOptions::new(&root),
        vec![],
        Some(vec![DirEntryInfo { path: path("/r/l"), is_dir: true, link_target: Some(b"/t".to_vec()) }]),
    );
    assert_eq!(b.ext_selected(), None);
    assert_eq!(b.handle_key(key(Key::Right)), BrowserAction::Relist);
    assert_eq!(b.current_dir().parts, path("/r/l").parts);
}

#[test]
fn optimization_question_keys() {
    assert_eq!(prompt_step(false, key(Key::Enter)), PromptStep::Answer(false));
    assert_eq!(prompt_step(false, key(Key::Down)), PromptStep::Pending(true));
    assert_eq!(prompt_step(true, key(Key::Tab)), PromptStep::Pending(false));
    assert_eq!(prompt_step(true, key(Key::Enter)), PromptStep::Answer(true));
    assert_eq!(prompt_step(false, key(Key::Char('Y'))), PromptStep::Answer(true));
    assert_eq!(prompt_step(true, key(Key::Char('n'))), PromptStep::Answer(false));
    assert_eq!(prompt_step(true, key(Key::Esc)), PromptStep::Answer(false));
    assert_eq!(prompt_step(true, key(Key::Char('q'))), PromptStep::Quit);
    assert_eq!(prompt_step(true, KeyPress { code: Key::Char('c'), ctrl: true, shift: false, press: true }), PromptStep::Quit);
    assert_eq!(prompt_step(true, key(Key::Char('x'))), PromptStep::Pending(true));
    assert_eq!(prompt_step(true, KeyPress { code: Key::Enter, ctrl: false, shift: false, press: false }), PromptStep::Pending(true));
}

#[test]
fn switching_focus_twice_restores_it() {
    let mut b = root_browser();
    b.handle_key(key(Key::Tab));
    b.handle_key(key(Key::Tab));
    assert_eq!(b.focus(), Panel::Left);
    assert_eq!(b.selected(), Some(0));
}

#[test]
fn undo_brings_back_the_choices_a_reset_cleared() {
    let mut b = root_browser();
    b.handle_key(key(Key::Char(' ')));
    assert_eq!(b.overrides().effective_option(&path("/r/sub")), ArchiveOption::Exclude);
    assert_eq!(b.handle_key(key(Key::Char('r'))), BrowserAction::Redraw);
    assert_eq!(b.overrides().effective_option(&path("/r/sub")), ArchiveOption::Compress);
    assert_eq!(b.handle_key(key(Key::Char('u'))), BrowserAction::Redraw);
    assert_eq!(b.overrides().effective_option(&path("/r/sub")), ArchiveOption::Exclude);
    assert_eq!(b.handle_key(KeyPress { code: Key::Enter, ctrl: false, shift: true, press: true }), BrowserAction::Confirm);
    let c = b.into_overrides();
    assert_eq!(c.effective_option(&path("/r/sub/deep/f")), ArchiveOption::Exclude);
}

#[test]
fn undo_without_a_reset_changes_nothing() {
    let mut b = root_browser();
    b.handle_key(key(Key::Char(' ')));
    assert_eq!(b.handle_key(key(Key::Char('u'))), BrowserAction::Redraw);
    assert_eq!(b.overrides().effective_option(&path("/r/sub")), ArchiveOption::Exclude);
    b.handle_key(key(Key::Char('r')));
    b.handle_key(key(Key::Char('u')));
    b.handle_key(key(Key::Char('u')));
    assert_eq!(b.overrides().effective_option(&path("/r/sub")), ArchiveOption::Exclude);
}

#[test]
fn enter_and_go_parent_directly() {
    let mut b = root_browser();
    // the cursor starts on "sub" (directories first)
    assert_eq!(b.enter(), BrowserAction::Relist);
    assert_eq!(b.current_dir().parts, path("/r/sub").parts);
    assert!(b.visible().is_empty());
    assert_eq!(b.go_parent(), BrowserAction::Relist);
    assert_eq!(b.current_dir().parts, path("/r").parts);
    assert_eq!(b.go_parent(), BrowserAction::Redraw);
    assert_eq!(b.current_dir().parts, path("/r").parts);
    b.handle_key(key(Key::Tab));
    assert_eq!(b.enter(), BrowserAction::Redraw);
}

#[test]
fn space_cycles_only_in_the_panel_with_the_focus() {
    let mut b = root_browser();
    b.handle_key(key(Key::Tab));
    assert_eq!(b.focus(), Panel::Right);
    // the cursor of the listing is still on "sub", but the extension list has the focus
    b.handle_key(key(Key::Char(' ')));
    assert_eq!(b.overrides().effective_option(&path("/r/sub")), ArchiveOption::Compress);
    assert_eq!(b.overrides().ext_option(&vec!['t', 'x', 't']), ArchiveOption::Exclude);
    b.handle_key(key(Key::Tab));
    b.handle_key(key(Key::Char(' ')));
    assert_eq!(b.overrides().effective_option(&path("/r/sub")), ArchiveOption::Exclude);
}
