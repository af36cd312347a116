use vstd::prelude::*;
use crate::codecs::{spec_str_width, str_width};

verus! {

/// The pieces of a text between single spaces, as `str::split(' ')` yields
/// them (empty pieces included; an empty text gives one empty piece).
pub open spec fn split_spaces(s: Seq<char>) -> Seq<Seq<char>>
    decreases s.len(),
{
    if s.len() == 0 {
        seq![Seq::<char>::empty()]
    } else {
        let p = split_spaces(s.drop_last());
        if s.last() == ' ' {
            p.push(Seq::<char>::empty())
        } else {
            p.update(p.len() - 1, p.last().push(s.last()))
        }
    }
}

/// Splitting always yields at least one piece.
pub proof fn lemma_split_nonempty(s: Seq<char>)
    ensures
        split_spaces(s).len() >= 1,
    decreases s.len(),
{
    if s.len() > 0 {
        lemma_split_nonempty(s.drop_last());
    }
}

/// The columns that a run of words occupies, one separating space per word.
pub open spec fn words_total(ws: Seq<Seq<char>>) -> nat
    decreases ws.len(),
{
    if ws.len() == 0 {
        0
    } else {
        words_total(ws.drop_last()) + spec_str_width(ws.last()) as nat + 1
    }
}

/// Greedy word wrapping at `max` columns: the number of lines completed so
/// far and the width used on the current line.
pub open spec fn wrap_state(ws: Seq<Seq<char>>, max: nat) -> (nat, nat)
    decreases ws.len(),
{
    if ws.len() == 0 {
        (0, 0)
    } else {
        let prev = wrap_state(ws.drop_last(), max);
        let w = spec_str_width(ws.last()) as nat;
        if prev.1 + w > max {
            (prev.0 + 1, w + 1)
        } else {
            (prev.0, prev.1 + w + 1)
        }
    }
}

/// How many lines a text takes when wrapped at `max` columns (at least one).
pub open spec fn spec_wrapped_lines(text: Seq<char>, max: nat) -> nat {
    let st = wrap_state(split_spaces(text), max);
    let lines = if st.1 > 0 {
        st.0 + 1
    } else {
        st.0
    };
    if lines < 1 {
        1
    } else {
        lines
    }
}

proof fn lemma_wrap_bounds(ws: Seq<Seq<char>>, max: nat)
    ensures
        wrap_state(ws, max).0 <= ws.len(),
        wrap_state(ws, max).1 <= words_total(ws),
        ws.len() <= words_total(ws),
    decreases ws.len(),
{
    if ws.len() > 0 {
        lemma_wrap_bounds(ws.drop_last(), max);
    }
}

proof fn lemma_total_prefix(ws: Seq<Seq<char>>, k: int)
    requires
        0 <= k <= ws.len(),
    ensures
        words_total(ws.subrange(0, k)) <= words_total(ws),
    decreases ws.len() - k,
{
    if k < ws.len() {
        lemma_total_prefix(ws, k + 1);
        assert(ws.subrange(0, k + 1).drop_last() =~= ws.subrange(0, k));
    } else {
        assert(ws.subrange(0, k) =~= ws);
    }
}

/// The pieces of `text` between single spaces.
pub fn split_words(text: &Vec<char>) -> (r: Vec<Vec<char>>)
    ensures
        r@.map_values(|w: Vec<char>| w@) == split_spaces(text@),
{
    let mut words: Vec<Vec<char>> = Vec::new();
    let mut cur: Vec<char> = Vec::new();
    let mut i: usize = 0;
    assert(text@.subrange(0, 0) =~= Seq::<char>::empty());
    assert(words@.map_values(|w: Vec<char>| w@).push(cur@) =~= split_spaces(text@.subrange(0, 0)));
    while i < text.len()
        invariant
            i <= text@.len(),
            words@.map_values(|w: Vec<char>| w@).push(cur@) == split_spaces(text@.subrange(0, i as int)),
        decreases text@.len() - i,
    {
        let c = text[i];
        let ghost pre = text@.subrange(0, i as int);
        let ghost next = text@.subrange(0, i + 1);
        assert(next.drop_last() =~= pre);
        assert(next.last() == c);
        let ghost old_words = words@.map_values(|w: Vec<char>| w@);
        let ghost old_cur = cur@;
        if c == ' ' {
            let done = cur;
            words.push(done);
            cur = Vec::new();
            assert(words@.map_values(|w: Vec<char>| w@) =~= old_words.push(old_cur));
            assert(words@.map_values(|w: Vec<char>| w@).push(cur@) =~= split_spaces(next));
        } else {
            cur.push(c);
            let ghost p = old_words.push(old_cur);
            assert(p.update(p.len() - 1, p.last().push(c)) =~= old_words.push(cur@));
        }
        i = i + 1;
    }
    assert(text@.subrange(0, i as int) =~= text@);
    let ghost old_words = words@.map_values(|w: Vec<char>| w@);
    words.push(cur);
    assert(words@.map_values(|w: Vec<char>| w@) =~= old_words.push(words@[words@.len() - 1]@));
    words
}

/// How many lines `text` takes when its words are wrapped greedily at
/// `max_width` columns: a word that does not fit on the current line starts
/// a new one; the result is at least one. The text's total width (one column
/// added per word) must fit in a `usize`.
pub fn wrapped_line_count(text: &Vec<char>, max_width: u16) -> (r: usize)
    requires
        words_total(split_spaces(text@)) < usize::MAX,
    ensures
        r == spec_wrapped_lines(text@, max_width as nat),
{
    let words = split_words(text);
    let ghost ws = split_spaces(text@);
    let max = max_width as usize;
    let mut lines: usize = 0;
    let mut current: usize = 0;
    let mut k: usize = 0;
    assert(ws.subrange(0, 0) =~= Seq::<Seq<char>>::empty());
    while k < words.len()
        invariant
            ws == split_spaces(text@),
            words@.map_values(|w: Vec<char>| w@) == ws,
            words_total(ws) < usize::MAX,
            max == max_width as nat,
            k <= words@.len(),
            (lines as nat, current as nat) == wrap_state(ws.subrange(0, k as int), max as nat),
        decreases words@.len() - k,
    {
        let ghost pre = ws.subrange(0, k as int);
        let ghost next = ws.subrange(0, k + 1);
        assert(next.drop_last() =~= pre);
        assert(next.last() == words@[k as int]@);
        let w = str_width(&words[k]);
        proof {
            lemma_wrap_bounds(pre, max as nat);
            lemma_wrap_bounds(next, max as nat);
            lemma_total_prefix(ws, k + 1);
            assert(words_total(next) == words_total(pre) + w + 1);
        }
        if current + w > max {
            lines = lines + 1;
            current = w + 1;
        } else {
            current = current + w + 1;
        }
        k = k + 1;
    }
    assert(ws.subrange(0, k as int) =~= ws);
    proof {
        lemma_wrap_bounds(ws, max as nat);
    }
    if current > 0 {
        lines = lines + 1;
    }
    if lines < 1 {
        1
    } else {
        lines
    }
}

/// `wrapped_line_count` for any text: none when the text's total width (one
/// column added per word) does not stay below `usize::MAX`.
pub fn checked_wrapped_line_count(text: &Vec<char>, max_width: u16) -> (r: Option<usize>)
    ensures
        r is Some <==> words_total(split_spaces(text@)) < usize::MAX,
        r matches Some(n) ==> n == spec_wrapped_lines(text@, max_width as nat),
{
    let words = split_words(text);
    let ghost ws = split_spaces(text@);
    let mut total: usize = 0;
    let mut k: usize = 0;
    assert(ws.subrange(0, 0) =~= Seq::<Seq<char>>::empty());
    while k < words.len()
        invariant
            ws == split_spaces(text@),
            words@.map_values(|w: Vec<char>| w@) == ws,
            k <= words@.len(),
            total as nat == words_total(ws.subrange(0, k as int)),
        decreases words@.len() - k,
    {
        let ghost next = ws.subrange(0, k + 1);
        assert(next.drop_last() =~= ws.subrange(0, k as int));
        assert(next.last() == words@[k as int]@);
        let w = str_width(&words[k]);
        if w >= usize::MAX - total {
            proof {
                lemma_total_prefix(ws, k + 1);
            }
            return None;
        }
        total = total + w + 1;
        k = k + 1;
    }
    assert(ws.subrange(0, k as int) =~= ws);
    if total == usize::MAX {
        return None;
    }
    Some(wrapped_line_count(text, max_width))
}

proof fn lemma_wrap_state_dominates(ws: Seq<Seq<char>>, narrow: nat, wide: nat)
    requires
        narrow <= wide,
    ensures
        ({
            let a = wrap_state(ws, wide);
            let b = wrap_state(ws, narrow);
            a.0 < b.0 || (a.0 == b.0 && a.1 <= b.1)
        }),
    decreases ws.len(),
{
    if ws.len() > 0 {
        lemma_wrap_state_dominates(ws.drop_last(), narrow, wide);
    }
}

/// Wrapping the same text in a wider area never takes more lines.
pub proof fn lemma_wider_needs_no_more_lines(text: Seq<char>, narrow: nat, wide: nat)
    requires
        narrow <= wide,
    ensures
        spec_wrapped_lines(text, wide) <= spec_wrapped_lines(text, narrow),
{
    lemma_wrap_state_dominates(split_spaces(text), narrow, wide);
}

/// The areas that `ratatui::layout::Layout::split` gives for `area`
/// (column, row, width, height) split vertically or horizontally by
/// percentage constraints, one area per constraint.
pub uninterp spec fn spec_percent_split(vertical: bool, area: (u16, u16, u16, u16), percents: Seq<u16>) -> Seq<(u16, u16, u16, u16)>;

/// Calls `Layout::split` (default margin, spacing and flex) with one
/// `Constraint::Percentage` per entry of `percents`. Claims that the areas are
/// the named result for exactly these arguments and, as `try_split` builds one
/// segment per constraint, that there are as many areas as percentages.
#[verifier::external_body]
fn percent_split(vertical: bool, area: (u16, u16, u16, u16), percents: &Vec<u16>) -> (r: Vec<(u16, u16, u16, u16)>)
    ensures
        r@ == spec_percent_split(vertical, area, percents@),
        r@.len() == percents@.len(),
{
    let direction = if vertical { ratatui::layout::Direction::Vertical } else { ratatui::layout::Direction::Horizontal };
    let constraints: Vec<ratatui::layout::Constraint> = percents.iter().map(|p| ratatui::layout::Constraint::Percentage(*p)).collect();
    let rect = ratatui::layout::Rect::new(area.0, area.1, area.2, area.3);
    let parts = ratatui::layout::Layout::default().direction(direction).constraints(constraints).split(rect);
    parts.iter().map(|a| (a.x, a.y, a.width, a.height)).collect()
}

/// The popup area in the middle of `area`: the middle band of a vertical
/// split into (100 - `percent_y`) / 2, `percent_y` and (100 - `percent_y`) / 2
/// percent, split horizontally in the same way by `percent_x`.
pub open spec fn spec_centered(percent_x: u16, percent_y: u16, area: (u16, u16, u16, u16)) -> (u16, u16, u16, u16) {
    let side_y = ((100 - percent_y) / 2) as u16;
    let band = spec_percent_split(true, area, seq![side_y, percent_y, side_y])[1];
    let side_x = ((100 - percent_x) / 2) as u16;
    spec_percent_split(false, band, seq![side_x, percent_x, side_x])[1]
}

/// A popup of `percent_x` by `percent_y` percent of `area`, centred in it;
/// neither percentage may exceed 100.
pub fn centered_rect(percent_x: u16, percent_y: u16, area: (u16, u16, u16, u16)) -> (r: (u16, u16, u16, u16))
    requires
        percent_x <= 100,
        percent_y <= 100,
    ensures
        r == spec_centered(percent_x, percent_y, area),
{
    let side_y = (100 - percent_y) / 2;
    let rows = percent_split(true, area, &vec![side_y, percent_y, side_y]);
    let band = rows[1];
    let side_x = (100 - percent_x) / 2;
    let cols = percent_split(false, band, &vec![side_x, percent_x, side_x]);
    cols[1]
}

/// The areas of the browser screen: the directory panel takes four fifths
/// of the width, the extension panel the rest; below the path line and a
/// blank line come the listing rows and the key help, which gets as many
/// lines as it needs but at most the height less four, and at least one.
#[derive(Clone, Copy, PartialEq, Eq, Debug, Structural)]
pub struct BrowserLayout {
    pub left_width: u16,
    pub right_width: u16,
    pub list_rows: u16,
    pub footer_height: u16,
}

/// The layout of a `width` x `height` screen whose key help wraps to
/// `footer_lines` lines.
pub open spec fn spec_layout(width: u16, height: u16, footer_lines: nat) -> BrowserLayout {
    let left = (width * 4 / 5) as u16;
    let max_footer: nat = if height >= 4 {
        (height - 4) as nat
    } else {
        0
    };
    let f = if footer_lines < max_footer {
        footer_lines
    } else {
        max_footer
    };
    let footer = if f < 1 {
        1
    } else {
        f
    };
    BrowserLayout {
        left_width: left,
        right_width: (width - left) as u16,
        list_rows: if height >= 2 + footer {
            (height - 2 - footer) as u16
        } else {
            0
        },
        footer_height: footer as u16,
    }
}

/// Lays out the browser screen; `width * 4` must fit in a `u16`.
pub fn browser_layout(width: u16, height: u16, footer_lines: usize) -> (r: BrowserLayout)
    requires
        width * 4 <= u16::MAX,
    ensures
        r == spec_layout(width, height, footer_lines as nat),
{
    let left = width * 4 / 5;
    let max_footer: usize = if height >= 4 {
        (height - 4) as usize
    } else {
        0
    };
    let f = if footer_lines < max_footer {
        footer_lines
    } else {
        max_footer
    };
    let footer: usize = if f < 1 {
        1
    } else {
        f
    };
    let footer16 = footer as u16;
    let rows: u16 = if (height as usize) >= 2 + footer {
        height - 2 - footer16
    } else {
        0
    };
    BrowserLayout { left_width: left, right_width: width - left, list_rows: rows, footer_height: footer16 }
}

} // verus!
