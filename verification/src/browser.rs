use vstd::prelude::*;
use crate::paths::{FsPath, is_prefix};
use crate::choices::{ChosenOptions, path_cycled, extension_cycled};
use crate::entries::{DirEntryInfo, EntryView, entry_views, listing_order, sort_entries};
use crate::extensions::ext_views;
use crate::keys::{Key, KeyPress};
use crate::text::copy_bytes;

verus! {

/// Which list of the browser has the keyboard focus.
#[derive(Clone, Copy, PartialEq, Eq, Debug, Structural)]
pub enum Panel {
    /// The directory listing.
    Left,
    /// The extension list.
    Right,
}

/// One line of the directory listing.
pub enum VisibleEntry {
    /// `..`, shown everywhere below the root directory.
    ParentDir,
    /// A file or directory.
    Child { path: FsPath, is_dir: bool },
    /// A symbolic link, with its target and whether the target is a directory.
    Symlink { path: FsPath, target: Vec<u8>, target_is_dir: bool },
}

/// The abstract value of a listing line.
pub enum VisibleView {
    ParentDir,
    Child(Seq<Seq<u8>>, bool),
    Symlink(Seq<Seq<u8>>, Seq<u8>, bool),
}

impl VisibleEntry {
    pub open spec fn view_of(&self) -> VisibleView {
        match self {
            VisibleEntry::ParentDir => VisibleView::ParentDir,
            VisibleEntry::Child { path, is_dir } => VisibleView::Child(path@, *is_dir),
            VisibleEntry::Symlink { path, target, target_is_dir } => VisibleView::Symlink(path@, target@, *target_is_dir),
        }
    }
}

/// The listing line of a directory entry.
pub open spec fn line_of(e: EntryView) -> VisibleView {
    match e.2 {
        Some(t) => VisibleView::Symlink(e.0, t, e.1),
        None => VisibleView::Child(e.0, e.1),
    }
}

/// What a key asks the browser to do.
#[derive(Clone, Copy, PartialEq, Eq, Debug, Structural)]
pub enum BrowserCommand {
    Nothing,
    Quit,
    Confirm,
    SwitchFocus,
    Down,
    Up,
    Descend,
    Parent,
    Cycle,
    Reset,
    Undo,
}

/// What the program around the browser has to do after a key.
#[derive(Clone, Copy, PartialEq, Eq, Debug, Structural)]
pub enum BrowserAction {
    /// Nothing to do but draw again.
    Redraw,
    /// Save the choices and end the program.
    Quit,
    /// Save the choices and go on with the archive.
    Confirm,
    /// The current directory changed: list it and hand the listing to `refresh`.
    Relist,
}

/// The key bindings of the browser.
pub open spec fn spec_command(key: KeyPress) -> BrowserCommand {
    if !key.press {
        BrowserCommand::Nothing
    } else {
        match key.code {
            Key::Char(c) => if c == 'q' || (c == 'c' && key.ctrl) {
                BrowserCommand::Quit
            } else if c == 'j' {
                BrowserCommand::Down
            } else if c == 'k' {
                BrowserCommand::Up
            } else if c == 'h' {
                BrowserCommand::Parent
            } else if c == ' ' {
                BrowserCommand::Cycle
            } else if c == 'r' {
                BrowserCommand::Reset
            } else if c == 'u' {
                BrowserCommand::Undo
            } else {
                BrowserCommand::Nothing
            },
            Key::Enter => if key.shift {
                BrowserCommand::Confirm
            } else {
                BrowserCommand::Descend
            },
            Key::Tab => BrowserCommand::SwitchFocus,
            Key::Down => BrowserCommand::Down,
            Key::Up => BrowserCommand::Up,
            Key::Right => BrowserCommand::Descend,
            Key::Left => BrowserCommand::Parent,
            _ => BrowserCommand::Nothing,
        }
    }
}

/// Maps a key to its browser command: q or Ctrl+C quit, Shift+Enter
/// confirms, Tab switches the panel, Down/j and Up/k move, Enter/Right
/// descend, Left/h go to the parent, Space cycles, r resets the choices
/// and u brings back those that the last reset cleared.
pub fn command_of(key: KeyPress) -> (r: BrowserCommand)
    ensures
        r == spec_command(key),
{
    if !key.press {
        return BrowserCommand::Nothing;
    }
    match key.code {
        Key::Char(c) => {
            if c == 'q' || (c == 'c' && key.ctrl) {
                BrowserCommand::Quit
            } else if c == 'j' {
                BrowserCommand::Down
            } else if c == 'k' {
                BrowserCommand::Up
            } else if c == 'h' {
                BrowserCommand::Parent
            } else if c == ' ' {
                BrowserCommand::Cycle
            } else if c == 'r' {
                BrowserCommand::Reset
            } else if c == 'u' {
                BrowserCommand::Undo
            } else {
                BrowserCommand::Nothing
            }
        },
        Key::Enter => if key.shift {
            BrowserCommand::Confirm
        } else {
            BrowserCommand::Descend
        },
        Key::Tab => BrowserCommand::SwitchFocus,
        Key::Down => BrowserCommand::Down,
        Key::Up => BrowserCommand::Up,
        Key::Right => BrowserCommand::Descend,
        Key::Left => BrowserCommand::Parent,
        _ => BrowserCommand::Nothing,
    }
}

/// The abstract state of the browser (the choices are kept apart).
pub struct BrowserModel {
    pub root: Seq<Seq<u8>>,
    pub current: Seq<Seq<u8>>,
    pub visible: Seq<VisibleView>,
    pub selected: Option<usize>,
    pub extensions: Seq<(Seq<char>, u64)>,
    pub ext_selected: Option<usize>,
    pub focus: Panel,
    pub quit: bool,
}

/// `ListState::scroll_down_by(1)`: from the selection (or 0), one further,
/// saturating.
pub open spec fn scrolled_down(sel: Option<usize>) -> Option<usize> {
    let s = match sel {
        Some(i) => i,
        None => 0,
    };
    Some(if s < usize::MAX {
        (s + 1) as usize
    } else {
        s
    })
}

/// `ListState::scroll_up_by(1)`: from the selection (or 0), one back, saturating.
pub open spec fn scrolled_up(sel: Option<usize>) -> Option<usize> {
    let s = match sel {
        Some(i) => i,
        None => 0,
    };
    Some(if s > 0 {
        (s - 1) as usize
    } else {
        0
    })
}

/// The selection after the listing changed to `len` lines: none for an
/// empty listing, else the old index (or 0) clamped to the last line.
pub open spec fn clamped(sel: Option<usize>, len: nat) -> Option<usize> {
    if len == 0 {
        None
    } else {
        let s = match sel {
            Some(i) => i,
            None => 0,
        };
        Some(if s < len {
            s
        } else {
            (len - 1) as usize
        })
    }
}

/// The line under the cursor of a listing, if the cursor is on one.
pub open spec fn cursor_line(m: BrowserModel) -> Option<VisibleView> {
    let i = match m.selected {
        Some(i) => i,
        None => 0,
    };
    if i < m.visible.len() {
        Some(m.visible[i as int])
    } else {
        None
    }
}

/// The directory that the cursor line leads into, if it leads into one.
pub open spec fn cursor_target(m: BrowserModel) -> Option<Seq<Seq<u8>>> {
    match cursor_line(m) {
        Some(VisibleView::Child(p, true)) => Some(p),
        Some(VisibleView::Symlink(p, _, true)) => Some(p),
        _ => None,
    }
}

/// Whether going to the parent is possible: below the root and not at `/`.
pub open spec fn can_go_up(m: BrowserModel) -> bool {
    m.current != m.root && m.current.len() > 0
}

/// The state after the current directory changed to `dir`, before its listing arrives.
pub open spec fn moved_to(m: BrowserModel, dir: Seq<Seq<u8>>) -> BrowserModel {
    BrowserModel { current: dir, visible: Seq::empty(), ..m }
}

/// The interactive directory browser: where the user is, what is listed,
/// the cursors of both panels, the focus, and the choices made so far.
pub struct Browser {
    root_dir: FsPath,
    current_dir: FsPath,
    overrides: ChosenOptions,
    visible: Vec<VisibleEntry>,
    selected: Option<usize>,
    extensions: Vec<(Vec<char>, u64)>,
    ext_selected: Option<usize>,
    focus: Panel,
    should_quit: bool,
    before_reset: Option<ChosenOptions>,
}

impl Browser {
    #[verifier::type_invariant]
    spec fn inv(self) -> bool {
        &&& is_prefix(self.root_dir@, self.current_dir@)
        &&& forall|i: int| 0 <= i < self.visible@.len() ==> match #[trigger] self.visible@[i].view_of() {
            VisibleView::ParentDir => true,
            VisibleView::Child(p, _) => p.len() > 0 && p.drop_last() == self.current_dir@,
            VisibleView::Symlink(p, _, _) => p.len() > 0 && p.drop_last() == self.current_dir@,
        }
    }

    /// The abstract state.
    pub closed spec fn model(&self) -> BrowserModel {
        BrowserModel {
            root: self.root_dir@,
            current: self.current_dir@,
            visible: self.visible@.map_values(|v: VisibleEntry| v.view_of()),
            selected: self.selected,
            extensions: ext_views(self.extensions@),
            ext_selected: self.ext_selected,
            focus: self.focus,
            quit: self.should_quit,
        }
    }

    /// The choices made so far.
    pub closed spec fn choices(&self) -> ChosenOptions {
        self.overrides
    }

    /// The choices that the last reset cleared, until an undo brings them back.
    pub closed spec fn before_reset(&self) -> Option<ChosenOptions> {
        self.before_reset
    }
}

/// `visible` lists directory `current`: a `..` line first unless `current` is
/// the root, then the entries of `listing` as lines in listing order
/// (directories first, then by lowercase name, ties in the given order).
pub open spec fn is_listing_of(visible: Seq<VisibleView>, current: Seq<Seq<u8>>, root: Seq<Seq<u8>>, listing: Seq<EntryView>) -> bool {
    let head: Seq<VisibleView> = if current != root {
        seq![VisibleView::ParentDir]
    } else {
        Seq::empty()
    };
    visible == head + listing_order(listing).map_values(|e: EntryView| line_of(e))
}

/// Every entry of a listing lies directly inside `dir`.
pub open spec fn all_inside(listing: Seq<EntryView>, dir: Seq<Seq<u8>>) -> bool {
    forall|i: int| 0 <= i < listing.len() ==> (#[trigger] listing[i]).0.len() > 0 && listing[i].0.drop_last() == dir
}

/// The listing handed over, or none when the directory could not be read.
pub open spec fn listing_views(listing: Option<Vec<DirEntryInfo>>) -> Seq<EntryView> {
    match listing {
        Some(l) => entry_views(l@),
        None => Seq::empty(),
    }
}

/// The browser stays inside its root directory, and every listed entry
/// other than `..` lies directly inside the current directory.
pub open spec fn well_placed(m: BrowserModel) -> bool {
    &&& is_prefix(m.root, m.current)
    &&& forall|i: int| 0 <= i < m.visible.len() ==> match #[trigger] m.visible[i] {
        VisibleView::ParentDir => true,
        VisibleView::Child(p, _) => p.len() > 0 && p.drop_last() == m.current,
        VisibleView::Symlink(p, _, _) => p.len() > 0 && p.drop_last() == m.current,
    }
}

/// The state after the user pressed a key that maps to `c`.
pub open spec fn step_ok(before: Browser, after: Browser, c: BrowserCommand, action: BrowserAction) -> bool {
    &&& step_model_ok(before, after, c, action)
    &&& match c {
        BrowserCommand::Reset => after.before_reset() == Some(before.choices()),
        BrowserCommand::Undo => after.before_reset() is None,
        _ => after.before_reset() == before.before_reset(),
    }
}

/// What a command does to the abstract state, the choices and the action.
pub open spec fn step_model_ok(before: Browser, after: Browser, c: BrowserCommand, action: BrowserAction) -> bool {
    let m = before.model();
    let ch = before.choices();
    let m2 = after.model();
    let ch2 = after.choices();
    let stays = m2 == m && ch2 == ch && action == BrowserAction::Redraw;
    let up = if can_go_up(m) {
        m2 == moved_to(m, m.current.drop_last()) && ch2 == ch && action == BrowserAction::Relist
    } else {
        stays
    };
    match c {
        BrowserCommand::Nothing => stays,
        BrowserCommand::Quit => m2 == m && ch2 == ch && action == BrowserAction::Quit,
        BrowserCommand::Confirm => m2 == (BrowserModel { quit: true, ..m }) && ch2 == ch && action == BrowserAction::Confirm,
        BrowserCommand::SwitchFocus => m2 == (BrowserModel {
            focus: if m.focus == Panel::Left {
                Panel::Right
            } else {
                Panel::Left
            },
            ..m
        }) && ch2 == ch && action == BrowserAction::Redraw,
        BrowserCommand::Down => m2 == (if m.focus == Panel::Left {
            BrowserModel { selected: scrolled_down(m.selected), ..m }
        } else {
            BrowserModel { ext_selected: scrolled_down(m.ext_selected), ..m }
        }) && ch2 == ch && action == BrowserAction::Redraw,
        BrowserCommand::Up => m2 == (if m.focus == Panel::Left {
            BrowserModel { selected: scrolled_up(m.selected), ..m }
        } else {
            BrowserModel { ext_selected: scrolled_up(m.ext_selected), ..m }
        }) && ch2 == ch && action == BrowserAction::Redraw,
        BrowserCommand::Descend => if m.focus != Panel::Left {
            stays
        } else {
            match cursor_line(m) {
                Some(VisibleView::ParentDir) => up,
                _ => match cursor_target(m) {
                    Some(p) => m2 == moved_to(m, p) && ch2 == ch && action == BrowserAction::Relist,
                    None => stays,
                },
            }
        },
        BrowserCommand::Parent => if m.focus != Panel::Left {
            stays
        } else {
            up
        },
        BrowserCommand::Cycle => m2 == m && action == BrowserAction::Redraw && if m.focus == Panel::Left {
            match cursor_line(m) {
                Some(VisibleView::Child(p, d)) => path_cycled(ch, ch2, p, d),
                Some(VisibleView::Symlink(p, _, d)) => path_cycled(ch, ch2, p, d),
                _ => ch2 == ch,
            }
        } else {
            let i = match m.ext_selected {
                Some(i) => i,
                None => 0,
            };
            if i < m.extensions.len() {
                extension_cycled(ch, ch2, m.extensions[i as int].0)
            } else {
                ch2 == ch
            }
        },
        BrowserCommand::Reset => m2 == m && action == BrowserAction::Redraw
            && ch2.path_entries().len() == 0 && ch2.ext_entries().len() == 0
            && ch2.root_view() == m.root,
        BrowserCommand::Undo => m2 == m && action == BrowserAction::Redraw && match before.before_reset() {
            Some(p) => ch2 == p,
            None => ch2 == ch,
        },
    }
}

fn line_for(e: &DirEntryInfo) -> (r: VisibleEntry)
    ensures
        r.view_of() == line_of(e@),
{
    match &e.link_target {
        Some(t) => VisibleEntry::Symlink { path: e.path.duplicate(), target: copy_bytes(t), target_is_dir: e.is_dir },
        None => VisibleEntry::Child { path: e.path.duplicate(), is_dir: e.is_dir },
    }
}

impl Browser {
    /// A browser at the root directory, showing `listing` (none when the
    /// directory could not be read), with the given choices and extension
    /// list; the extension cursor starts on the first extension if any.
    pub fn new(
        root_dir: FsPath,
        overrides: ChosenOptions,
        extensions: Vec<(Vec<char>, u64)>,
        listing: Option<Vec<DirEntryInfo>>,
    ) -> (r: Browser)
        requires
            all_inside(listing_views(listing), root_dir@),
        ensures
            r.model().root == root_dir@,
            r.model().current == root_dir@,
            is_listing_of(r.model().visible, root_dir@, root_dir@, listing_views(listing)),
            r.model().selected == clamped(None, r.model().visible.len()),
            r.model().extensions == ext_views(extensions@),
            r.model().ext_selected == (if extensions@.len() > 0 {
                Some(0usize)
            } else {
                None
            }),
            r.model().focus == Panel::Left,
            !r.model().quit,
            r.choices() == overrides,
            r.before_reset() is None,
            well_placed(r.model()),
    {
        let current_dir = root_dir.duplicate();
        assert(root_dir@.subrange(0, root_dir@.len() as int) =~= root_dir@);
        let ext_selected = if extensions.len() > 0 {
            Some(0)
        } else {
            None
        };
        let mut b = Browser {
            root_dir,
            current_dir,
            overrides,
            visible: Vec::new(),
            selected: None,
            extensions,
            ext_selected,
            focus: Panel::Left,
            should_quit: false,
            before_reset: None,
        };
        b.refresh(listing);
        proof {
            use_type_invariant(&b);
            Browser::lemma_well_placed(b);
        }
        b
    }

    proof fn lemma_well_placed(b: Browser)
        requires
            b.inv(),
        ensures
            well_placed(b.model()),
    {
        let ghost s = b;
        assert forall|i: int| 0 <= i < s.model().visible.len() implies match #[trigger] s.model().visible[i] {
            VisibleView::ParentDir => true,
            VisibleView::Child(p, _) => p.len() > 0 && p.drop_last() == s.model().current,
            VisibleView::Symlink(p, _, _) => p.len() > 0 && p.drop_last() == s.model().current,
        } by {
            assert(s.model().visible[i] == s.visible@[i].view_of());
        }
    }

    /// Replaces the listing with that of the current directory (`listing`
    /// is none when the directory could not be read) and clamps the cursor
    /// to the new listing.
    pub fn refresh(&mut self, listing: Option<Vec<DirEntryInfo>>)
        requires
            all_inside(listing_views(listing), old(self).model().current),
        ensures
            is_listing_of(final(self).model().visible, old(self).model().current, old(self).model().root, listing_views(listing)),
            final(self).model() == (BrowserModel {
                visible: final(self).model().visible,
                selected: clamped(old(self).model().selected, final(self).model().visible.len()),
                ..old(self).model()
            }),
            final(self).choices() == old(self).choices(),
            final(self).before_reset() == old(self).before_reset(),
            well_placed(final(self).model()),
    {
        proof {
            use_type_invariant(&*self);
        }
        let entries: Vec<DirEntryInfo> = match listing {
            Some(l) => l,
            None => Vec::new(),
        };
        assert(entry_views(entries@) == listing_views(listing)) by {
            if listing is None {
                assert(entry_views(entries@) =~= Seq::<EntryView>::empty());
            }
        }
        let sorted = sort_entries(&entries);
        let ghost sv = entry_views(sorted@);
        proof {
            broadcast use vstd::seq_lib::to_multiset_contains;
            assert forall|i: int| 0 <= i < sv.len() implies (#[trigger] sv[i]).0.len() > 0 && sv[i].0.drop_last() == self.current_dir@ by {
                assert(sv.contains(sv[i]));
                assert(sv.to_multiset().count(sv[i]) > 0);
                assert(entry_views(entries@).contains(sv[i]));
            }
        }
        let mut lines: Vec<VisibleEntry> = Vec::new();
        let at_root = self.current_dir.equals(&self.root_dir);
        if !at_root {
            lines.push(VisibleEntry::ParentDir);
        }
        let ghost head: Seq<VisibleView> = if !at_root {
            seq![VisibleView::ParentDir]
        } else {
            Seq::empty()
        };
        assert(lines@.map_values(|v: VisibleEntry| v.view_of()) =~= head);
        let mut i: usize = 0;
        while i < sorted.len()
            invariant
                sv == entry_views(sorted@),
                i <= sorted@.len(),
                lines@.map_values(|v: VisibleEntry| v.view_of()) == head + sv.subrange(0, i as int).map_values(|e: EntryView| line_of(e)),
                forall|j: int| 0 <= j < sv.len() ==> (#[trigger] sv[j]).0.len() > 0 && sv[j].0.drop_last() == self.current_dir@,
                forall|j: int| 0 <= j < lines@.len() ==> match #[trigger] lines@[j].view_of() {
                    VisibleView::ParentDir => true,
                    VisibleView::Child(p, _) => p.len() > 0 && p.drop_last() == self.current_dir@,
                    VisibleView::Symlink(p, _, _) => p.len() > 0 && p.drop_last() == self.current_dir@,
                },
            decreases sorted@.len() - i,
        {
            let ghost prev = lines@;
            let line = line_for(&sorted[i]);
            assert(sv[i as int] == sorted@[i as int]@);
            let ghost lv = line.view_of();
            lines.push(line);
            proof {
                let lhs = lines@.map_values(|v: VisibleEntry| v.view_of());
                let old_rhs = head + sv.subrange(0, i as int).map_values(|e: EntryView| line_of(e));
                let rhs = head + sv.subrange(0, i + 1).map_values(|e: EntryView| line_of(e));
                assert(prev.map_values(|v: VisibleEntry| v.view_of()) == old_rhs);
                assert(lhs.len() == rhs.len());
                assert forall|j: int| 0 <= j < lhs.len() implies lhs[j] == rhs[j] by {
                    if j < prev.len() {
                        assert(lines@[j] == prev[j]);
                        assert(lhs[j] == prev.map_values(|v: VisibleEntry| v.view_of())[j]);
                        if j >= head.len() {
                            assert(sv.subrange(0, i + 1)[j - head.len()] == sv.subrange(0, i as int)[j - head.len()]);
                        }
                    } else {
                        assert(lhs[j] == lv);
                        assert(rhs[j] == line_of(sv[i as int]));
                    }
                }
                assert(lhs =~= rhs);
            }
            assert forall|j: int| 0 <= j < lines@.len() implies match #[trigger] lines@[j].view_of() {
                VisibleView::ParentDir => true,
                VisibleView::Child(p, _) => p.len() > 0 && p.drop_last() == self.current_dir@,
                VisibleView::Symlink(p, _, _) => p.len() > 0 && p.drop_last() == self.current_dir@,
            } by {
                if j < prev.len() {
                    assert(lines@[j] == prev[j]);
                }
            }
            i = i + 1;
        }
        assert(sv.subrange(0, i as int) =~= sv);
        let n = lines.len();
        self.visible = lines;
        if n == 0 {
            self.selected = None;
        } else {
            let s = match self.selected {
                Some(x) => x,
                None => 0,
            };
            self.selected = Some(if s < n {
                s
            } else {
                n - 1
            });
        }
        assert(is_listing_of(self.model().visible, self.current_dir@, self.root_dir@, listing_views(listing))) by {
            assert(self.model().visible == head + sv.map_values(|e: EntryView| line_of(e)));
            assert(sv == listing_order(listing_views(listing)));
        }
        proof {
            use_type_invariant(&*self);
            Browser::lemma_well_placed(*self);
        }
    }
}

impl Browser {
    /// Handles one key press (see `command_of` for the bindings).
    pub fn handle_key(&mut self, key: KeyPress) -> (r: BrowserAction)
        ensures
            step_ok(*old(self), *final(self), spec_command(key), r),
            well_placed(final(self).model()),
    {
        let c = command_of(key);
        self.apply(c)
    }

    /// Carries out one browser command.
    pub fn apply(&mut self, c: BrowserCommand) -> (r: BrowserAction)
        ensures
            step_ok(*old(self), *final(self), c, r),
            well_placed(final(self).model()),
    {
        proof {
            use_type_invariant(&*self);
        }
        let r = match c {
            BrowserCommand::Nothing => BrowserAction::Redraw,
            BrowserCommand::Quit => BrowserAction::Quit,
            BrowserCommand::Confirm => {
                self.should_quit = true;
                BrowserAction::Confirm
            },
            BrowserCommand::SwitchFocus => {
                self.focus = match self.focus {
                    Panel::Left => Panel::Right,
                    Panel::Right => Panel::Left,
                };
                BrowserAction::Redraw
            },
            BrowserCommand::Down => {
                match self.focus {
                    Panel::Left => self.selected = Some(scroll_down(self.selected)),
                    Panel::Right => self.ext_selected = Some(scroll_down(self.ext_selected)),
                }
                BrowserAction::Redraw
            },
            BrowserCommand::Up => {
                match self.focus {
                    Panel::Left => self.selected = Some(scroll_up(self.selected)),
                    Panel::Right => self.ext_selected = Some(scroll_up(self.ext_selected)),
                }
                BrowserAction::Redraw
            },
            BrowserCommand::Descend => self.enter(),
            BrowserCommand::Parent => {
                if self.focus == Panel::Left {
                    self.go_parent()
                } else {
                    BrowserAction::Redraw
                }
            },
            BrowserCommand::Cycle => {
                match self.focus {
                    Panel::Left => self.cycle_option_current(),
                    Panel::Right => self.cycle_extension_current(),
                }
                BrowserAction::Redraw
            },
            BrowserCommand::Reset => {
                let mut cleared = ChosenOptions::new(&self.root_dir);
                std::mem::swap(&mut cleared, &mut self.overrides);
                self.before_reset = Some(cleared);
                BrowserAction::Redraw
            },
            BrowserCommand::Undo => {
                let mut kept: Option<ChosenOptions> = None;
                std::mem::swap(&mut kept, &mut self.before_reset);
                if let Some(p) = kept {
                    self.overrides = p;
                }
                BrowserAction::Redraw
            },
        };
        proof {
            use_type_invariant(&*self);
            Browser::lemma_well_placed(*self);
        }
        r
    }

    /// Goes to the parent of the current directory, unless the browser is at
    /// the root directory (or at `/`); the new directory then needs listing.
    pub fn go_parent(&mut self) -> (r: BrowserAction)
        ensures
            if can_go_up(old(self).model()) {
                final(self).model() == moved_to(old(self).model(), old(self).model().current.drop_last())
                    && r == BrowserAction::Relist
            } else {
                final(self).model() == old(self).model() && r == BrowserAction::Redraw
            },
            final(self).choices() == old(self).choices(),
            final(self).before_reset() == old(self).before_reset(),
            well_placed(final(self).model()),
    {
        proof {
            use_type_invariant(&*self);
            Browser::lemma_well_placed(*self);
        }
        if self.current_dir.equals(&self.root_dir) {
            return BrowserAction::Redraw;
        }
        match self.current_dir.parent() {
            Some(p) => {
                proof {
                    let root = self.root_dir@;
                    let cur = self.current_dir@;
                    assert(cur.len() > root.len()) by {
                        if cur.len() == root.len() {
                            assert(cur.subrange(0, root.len() as int) =~= cur);
                        }
                    }
                    assert(p@.subrange(0, root.len() as int) =~= cur.subrange(0, root.len() as int));
                }
                self.visible = Vec::new();
                self.current_dir = p;
                assert(self.model().visible =~= Seq::<VisibleView>::empty());
                proof {
                    use_type_invariant(&*self);
                    Browser::lemma_well_placed(*self);
                }
                BrowserAction::Relist
            },
            None => BrowserAction::Redraw,
        }
    }

    /// Enters what the cursor of the directory listing is on: the parent for
    /// `..`, a directory, or a link to a directory; anything else, or the
    /// focus on the extension list, leaves the browser as it was.
    pub fn enter(&mut self) -> (r: BrowserAction)
        ensures
            step_ok(*old(self), *final(self), BrowserCommand::Descend, r),
            well_placed(final(self).model()),
    {
        proof {
            use_type_invariant(&*self);
            Browser::lemma_well_placed(*self);
        }
        if self.focus != Panel::Left {
            return BrowserAction::Redraw;
        }
        let idx = match self.selected {
            Some(i) => i,
            None => 0,
        };
        if idx >= self.visible.len() {
            return BrowserAction::Redraw;
        }
        let ghost line = self.visible@[idx as int].view_of();
        assert(cursor_line(self.model()) == Some(line));
        let target: Option<FsPath> = match &self.visible[idx] {
            VisibleEntry::ParentDir => {
                return self.go_parent();
            },
            VisibleEntry::Child { path, is_dir } => if *is_dir {
                Some(path.duplicate())
            } else {
                None
            },
            VisibleEntry::Symlink { path, target_is_dir, .. } => if *target_is_dir {
                Some(path.duplicate())
            } else {
                None
            },
        };
        match target {
            Some(p) => {
                proof {
                    let root = self.root_dir@;
                    let cur = self.current_dir@;
                    assert(p@.drop_last() == cur);
                    assert(p@.subrange(0, root.len() as int) =~= cur.subrange(0, root.len() as int));
                }
                self.visible = Vec::new();
                self.current_dir = p;
                assert(self.model().visible =~= Seq::<VisibleView>::empty());
                proof {
                    use_type_invariant(&*self);
                    Browser::lemma_well_placed(*self);
                }
                BrowserAction::Relist
            },
            None => BrowserAction::Redraw,
        }
    }

    fn cycle_option_current(&mut self)
        ensures
            final(self).model() == old(self).model(),
            final(self).before_reset() == old(self).before_reset(),
            old(self).model().focus != Panel::Left ==> final(self).choices() == old(self).choices(),
            old(self).model().focus == Panel::Left ==> match cursor_line(old(self).model()) {
                Some(VisibleView::Child(p, d)) => path_cycled(old(self).choices(), final(self).choices(), p, d),
                Some(VisibleView::Symlink(p, _, d)) => path_cycled(old(self).choices(), final(self).choices(), p, d),
                _ => final(self).choices() == old(self).choices(),
            },
    {
        proof {
            use_type_invariant(&*self);
        }
        if self.focus != Panel::Left {
            return;
        }
        let idx = match self.selected {
            Some(i) => i,
            None => 0,
        };
        if idx >= self.visible.len() {
            return;
        }
        let ghost line = self.visible@[idx as int].view_of();
        assert(cursor_line(self.model()) == Some(line));
        match &self.visible[idx] {
            VisibleEntry::ParentDir => {},
            VisibleEntry::Child { path, is_dir } => {
                let mut ov = ChosenOptions::new(&self.root_dir);
                std::mem::swap(&mut ov, &mut self.overrides);
                ov.cycle_path(path, *is_dir);
                self.overrides = ov;
            },
            VisibleEntry::Symlink { path, target_is_dir, .. } => {
                let mut ov = ChosenOptions::new(&self.root_dir);
                std::mem::swap(&mut ov, &mut self.overrides);
                ov.cycle_path(path, *target_is_dir);
                self.overrides = ov;
            },
        }
    }

    fn cycle_extension_current(&mut self)
        ensures
            final(self).model() == old(self).model(),
            final(self).before_reset() == old(self).before_reset(),
            old(self).model().focus != Panel::Right ==> final(self).choices() == old(self).choices(),
            old(self).model().focus == Panel::Right ==> ({
                let i = match old(self).model().ext_selected {
                    Some(i) => i,
                    None => 0,
                };
                if i < old(self).model().extensions.len() {
                    extension_cycled(old(self).choices(), final(self).choices(), old(self).model().extensions[i as int].0)
                } else {
                    final(self).choices() == old(self).choices()
                }
            }),
    {
        proof {
            use_type_invariant(&*self);
        }
        if self.focus != Panel::Right {
            return;
        }
        let idx = match self.ext_selected {
            Some(i) => i,
            None => 0,
        };
        if idx < self.extensions.len() {
            assert(self.model().extensions[idx as int].0 == self.extensions@[idx as int].0@);
            let mut ov = ChosenOptions::new(&self.root_dir);
            std::mem::swap(&mut ov, &mut self.overrides);
            ov.cycle_extension(&self.extensions[idx].0);
            self.overrides = ov;
        }
    }
}

fn scroll_down(sel: Option<usize>) -> (r: usize)
    ensures
        Some(r) == scrolled_down(sel),
{
    let s = match sel {
        Some(i) => i,
        None => 0,
    };
    if s < usize::MAX {
        s + 1
    } else {
        s
    }
}

fn scroll_up(sel: Option<usize>) -> (r: usize)
    ensures
        Some(r) == scrolled_up(sel),
{
    let s = match sel {
        Some(i) => i,
        None => 0,
    };
    if s > 0 {
        s - 1
    } else {
        0
    }
}

impl Browser {
    /// The listing lines.
    pub fn visible(&self) -> (r: &Vec<VisibleEntry>)
        ensures
            r@.map_values(|v: VisibleEntry| v.view_of()) == self.model().visible,
    {
        &self.visible
    }

    /// The cursor of the directory listing.
    pub fn selected(&self) -> (r: Option<usize>)
        ensures
            r == self.model().selected,
    {
        self.selected
    }

    /// The cursor of the extension list.
    pub fn ext_selected(&self) -> (r: Option<usize>)
        ensures
            r == self.model().ext_selected,
    {
        self.ext_selected
    }

    /// The panel with the keyboard focus.
    pub fn focus(&self) -> (r: Panel)
        ensures
            r == self.model().focus,
    {
        self.focus
    }

    /// Whether the user confirmed the choices.
    pub fn should_quit(&self) -> (r: bool)
        ensures
            r == self.model().quit,
    {
        self.should_quit
    }

    /// The extension list with total sizes.
    pub fn extensions(&self) -> (r: &Vec<(Vec<char>, u64)>)
        ensures
            ext_views(r@) == self.model().extensions,
    {
        &self.extensions
    }

    /// The directory being shown.
    pub fn current_dir(&self) -> (r: &FsPath)
        ensures
            r@ == self.model().current,
    {
        &self.current_dir
    }

    /// The root directory.
    pub fn root_dir(&self) -> (r: &FsPath)
        ensures
            r@ == self.model().root,
    {
        &self.root_dir
    }

    /// The choices made so far.
    pub fn overrides(&self) -> (r: &ChosenOptions)
        ensures
            *r == self.choices(),
    {
        &self.overrides
    }

    /// Ends browsing and hands over the choices.
    pub fn into_overrides(self) -> (r: ChosenOptions)
        ensures
            r == self.choices(),
    {
        self.overrides
    }

    /// Takes over the cursor of the directory listing as the drawn list left
    /// it (drawing clamps it to the list).
    pub fn set_selection(&mut self, sel: Option<usize>)
        ensures
            final(self).model() == (BrowserModel { selected: sel, ..old(self).model() }),
            final(self).choices() == old(self).choices(),
            final(self).before_reset() == old(self).before_reset(),
    {
        proof {
            use_type_invariant(&*self);
        }
        self.selected = sel;
    }

    /// Takes over the cursor of the extension list as the drawn list left it.
    pub fn set_ext_selection(&mut self, sel: Option<usize>)
        ensures
            final(self).model() == (BrowserModel { ext_selected: sel, ..old(self).model() }),
            final(self).choices() == old(self).choices(),
            final(self).before_reset() == old(self).before_reset(),
    {
        proof {
            use_type_invariant(&*self);
        }
        self.ext_selected = sel;
    }
}

/// Going down into a listed directory and then up to the parent comes back
/// to the directory the user started in.
pub proof fn lemma_descend_then_up(b0: Browser, b1: Browser, b2: Browser, a1: BrowserAction, a2: BrowserAction)
    requires
        well_placed(b0.model()),
        b0.model().focus == Panel::Left,
        cursor_target(b0.model()) is Some,
        step_ok(b0, b1, BrowserCommand::Descend, a1),
        step_ok(b1, b2, BrowserCommand::Parent, a2),
    ensures
        a1 == BrowserAction::Relist,
        a2 == BrowserAction::Relist,
        b2.model().current == b0.model().current,
{
    let m = b0.model();
    let i = match m.selected {
        Some(i) => i,
        None => 0,
    };
    let p = cursor_target(m)->0;
    assert(m.visible[i as int] == cursor_line(m)->0);
    assert(p.len() > 0 && p.drop_last() == m.current);
    assert(p.len() > m.root.len()) by {
        assert(m.current.len() >= m.root.len());
    }
    assert(b1.model().current == p);
    assert(p != m.root);
}

/// Switching the focus twice gives it back to the panel that had it.
pub proof fn lemma_focus_toggle_twice(b0: Browser, b1: Browser, b2: Browser, a1: BrowserAction, a2: BrowserAction)
    requires
        step_ok(b0, b1, BrowserCommand::SwitchFocus, a1),
        step_ok(b1, b2, BrowserCommand::SwitchFocus, a2),
    ensures
        b2.model() == b0.model(),
        b2.choices() == b0.choices(),
{
}

/// Undoing right after a reset brings back the choices the reset cleared,
/// and leaves the rest of the browser as it was.
pub proof fn lemma_reset_then_undo(b0: Browser, b1: Browser, b2: Browser, a1: BrowserAction, a2: BrowserAction)
    requires
        step_ok(b0, b1, BrowserCommand::Reset, a1),
        step_ok(b1, b2, BrowserCommand::Undo, a2),
    ensures
        b2.choices() == b0.choices(),
        b2.model() == b0.model(),
        b2.before_reset() is None,
{
}

/// Entering never leaves the root directory, and it changes the current
/// directory only with the focus on the listing: to the parent when the
/// cursor is on `..` (never above the root), or into the directory or the
/// link to a directory under the cursor.
pub proof fn lemma_enter_stays_inside(b0: Browser, b1: Browser, a: BrowserAction)
    requires
        well_placed(b0.model()),
        step_ok(b0, b1, BrowserCommand::Descend, a),
    ensures
        is_prefix(b1.model().root, b1.model().current),
        b1.model().root == b0.model().root,
        b1.model().current != b0.model().current ==> {
            &&& b0.model().focus == Panel::Left
            &&& a == BrowserAction::Relist
            &&& match cursor_line(b0.model()) {
                Some(VisibleView::ParentDir) => b0.model().current != b0.model().root
                    && b1.model().current == b0.model().current.drop_last(),
                _ => cursor_target(b0.model()) == Some(b1.model().current),
            }
        },
{
    let m = b0.model();
    let root = m.root;
    let cur = m.current;
    if b1.model().current != cur {
        match cursor_line(m) {
            Some(VisibleView::ParentDir) => {
                assert(cur.len() > root.len()) by {
                    if cur.len() == root.len() {
                        assert(cur.subrange(0, root.len() as int) =~= cur);
                    }
                }
                assert(cur.drop_last().subrange(0, root.len() as int) =~= cur.subrange(0, root.len() as int));
            },
            _ => {
                let i = match m.selected {
                    Some(i) => i,
                    None => 0,
                };
                let p = cursor_target(m)->0;
                assert(m.visible[i as int] == cursor_line(m)->0);
                assert(p.len() > 0 && p.drop_last() == cur);
                assert(p.subrange(0, root.len() as int) =~= cur.subrange(0, root.len() as int));
            },
        }
    }
}

} // verus!
