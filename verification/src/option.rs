use vstd::prelude::*;

verus! {

/// What happens to a file when the archive is built.
#[derive(Clone, Copy, PartialEq, Eq, Debug, Structural)]
pub enum ArchiveOption {
    /// Left out of the archive.
    Exclude,
    /// Stored in the uncompressed part of the archive.
    Include,
    /// Stored in the xz-compressed part of the archive.
    Compress,
}

/// The option a file gets when nothing was chosen for it.
pub open spec fn default_option() -> ArchiveOption {
    ArchiveOption::Compress
}

/// The option that follows `o` when the user cycles through the options.
pub open spec fn spec_next(o: ArchiveOption) -> ArchiveOption {
    match o {
        ArchiveOption::Exclude => ArchiveOption::Include,
        ArchiveOption::Include => ArchiveOption::Compress,
        ArchiveOption::Compress => ArchiveOption::Exclude,
    }
}

/// The one-character marker shown for an option in the browser.
pub open spec fn spec_marker(o: ArchiveOption) -> char {
    match o {
        ArchiveOption::Exclude => ' ',
        ArchiveOption::Include => 'I',
        ArchiveOption::Compress => '*',
    }
}

impl Default for ArchiveOption {
    fn default() -> (r: Self)
        ensures
            r == default_option(),
    {
        ArchiveOption::Compress
    }
}

impl ArchiveOption {
    /// Cycles Exclude -> Include -> Compress -> Exclude.
    pub fn next(self) -> (r: Self)
        ensures
            r == spec_next(self),
    {
        match self {
            ArchiveOption::Exclude => ArchiveOption::Include,
            ArchiveOption::Include => ArchiveOption::Compress,
            ArchiveOption::Compress => ArchiveOption::Exclude,
        }
    }

    /// The marker character: ' ' for Exclude, 'I' for Include, '*' for Compress.
    pub fn to_char(self) -> (c: char)
        ensures
            c == spec_marker(self),
    {
        match self {
            ArchiveOption::Exclude => ' ',
            ArchiveOption::Include => 'I',
            ArchiveOption::Compress => '*',
        }
    }

    /// Whether files with this option end up in the archive.
    pub fn is_archived(self) -> (r: bool)
        ensures
            r == (self != ArchiveOption::Exclude),
    {
        match self {
            ArchiveOption::Exclude => false,
            _ => true,
        }
    }
}

/// Cycling three times through the options comes back to the start, and no
/// shorter number of steps does.
pub proof fn lemma_next_cycle(o: ArchiveOption)
    ensures
        spec_next(spec_next(spec_next(o))) == o,
        spec_next(o) != o,
        spec_next(spec_next(o)) != o,
{
}

/// Distinct options have distinct markers.
pub proof fn lemma_marker_distinct(a: ArchiveOption, b: ArchiveOption)
    ensures
        spec_marker(a) == spec_marker(b) <==> a == b,
{
}

} // verus!
