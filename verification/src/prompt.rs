use vstd::prelude::*;
use crate::keys::{Key, KeyPress};

verus! {

/// What a key does to the yes/no question about optimizing images.
#[derive(Clone, Copy, PartialEq, Eq, Debug, Structural)]
pub enum PromptStep {
    /// No answer yet; the highlighted button is now `yes` when true.
    Pending(bool),
    /// The user answered.
    Answer(bool),
    /// The user quit the program.
    Quit,
}

/// The effect of a key on the question, with `yes` the button highlighted now.
pub open spec fn spec_prompt_step(yes: bool, key: KeyPress) -> PromptStep {
    if !key.press {
        PromptStep::Pending(yes)
    } else {
        match key.code {
            Key::Up | Key::Down | Key::Tab => PromptStep::Pending(!yes),
            Key::Enter => PromptStep::Answer(yes),
            Key::Char(c) => if c == 'y' || c == 'Y' {
                PromptStep::Answer(true)
            } else if c == 'n' || c == 'N' {
                PromptStep::Answer(false)
            } else if c == 'q' || (c == 'c' && key.ctrl) {
                PromptStep::Quit
            } else {
                PromptStep::Pending(yes)
            },
            Key::Esc => PromptStep::Answer(false),
            _ => PromptStep::Pending(yes),
        }
    }
}

/// Handles one key of the question: arrows and Tab move the highlight,
/// Enter answers with the highlighted button, y/Y and n/N answer directly,
/// Esc answers no, q and Ctrl+C quit; anything else changes nothing.
pub fn prompt_step(yes: bool, key: KeyPress) -> (r: PromptStep)
    ensures
        r == spec_prompt_step(yes, key),
        key.press && (key.code == Key::Char('y') || key.code == Key::Char('Y')) ==> r == PromptStep::Answer(true),
        key.press && (key.code == Key::Char('n') || key.code == Key::Char('N')) ==> r == PromptStep::Answer(false),
{
    if !key.press {
        return PromptStep::Pending(yes);
    }
    match key.code {
        Key::Up | Key::Down | Key::Tab => PromptStep::Pending(!yes),
        Key::Enter => PromptStep::Answer(yes),
        Key::Char(c) => {
            if c == 'y' || c == 'Y' {
                PromptStep::Answer(true)
            } else if c == 'n' || c == 'N' {
                PromptStep::Answer(false)
            } else if c == 'q' || (c == 'c' && key.ctrl) {
                PromptStep::Quit
            } else {
                PromptStep::Pending(yes)
            }
        },
        Key::Esc => PromptStep::Answer(false),
        _ => PromptStep::Pending(yes),
    }
}

/// The question starts with "no" highlighted, so Enter right away declines.
pub proof fn lemma_enter_first_declines(key: KeyPress)
    requires
        key.press,
        key.code == Key::Enter,
    ensures
        spec_prompt_step(false, key) == PromptStep::Answer(false),
{
}

/// Moving the highlight twice comes back to the same button.
pub proof fn lemma_toggle_twice(yes: bool, key: KeyPress)
    requires
        spec_prompt_step(yes, key) matches PromptStep::Pending(y) && y != yes,
    ensures
        spec_prompt_step(!yes, key) == PromptStep::Pending(yes),
{
}

/// The letter keys answer whatever button is highlighted: y or Y answers
/// yes, n or N answers no.
pub proof fn lemma_letters_answer(yes: bool, key: KeyPress)
    requires
        key.press,
    ensures
        (key.code == Key::Char('y') || key.code == Key::Char('Y')) ==> spec_prompt_step(yes, key) == PromptStep::Answer(true),
        (key.code == Key::Char('n') || key.code == Key::Char('N')) ==> spec_prompt_step(yes, key) == PromptStep::Answer(false),
{
}

/// Only Enter's answer depends on the highlighted button; every other key
/// that answers gives the same answer from either button.
pub proof fn lemma_answer_ignores_highlight(key: KeyPress)
    requires
        key.code != Key::Enter,
        spec_prompt_step(true, key) is Answer || spec_prompt_step(false, key) is Answer,
    ensures
        spec_prompt_step(true, key) == spec_prompt_step(false, key),
{
}

/// The other keys of the question: a released key changes nothing; the
/// arrows and Tab move the highlight to the other button; Enter answers with
/// the highlighted button; Esc answers no; q and Ctrl+C quit.
pub proof fn lemma_prompt_keys(yes: bool, key: KeyPress)
    ensures
        !key.press ==> spec_prompt_step(yes, key) == PromptStep::Pending(yes),
        key.press && (key.code == Key::Up || key.code == Key::Down || key.code == Key::Tab)
            ==> spec_prompt_step(yes, key) == PromptStep::Pending(!yes),
        key.press && key.code == Key::Enter ==> spec_prompt_step(yes, key) == PromptStep::Answer(yes),
        key.press && key.code == Key::Esc ==> spec_prompt_step(yes, key) == PromptStep::Answer(false),
        key.press && (key.code == Key::Char('q') || (key.code == Key::Char('c') && key.ctrl))
            ==> spec_prompt_step(yes, key) == PromptStep::Quit,
{
}

} // verus!
