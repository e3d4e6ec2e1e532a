use vstd::prelude::*;

use crate::onscreen_button;

verus! {

/// How a letter of a guess compares with the secret word.
#[derive(Debug, PartialEq, Eq, Structural, Clone, Copy)]
pub enum Format {
    NotUsed,
    NoMatch,
    Match,
    ExactMatch,
}

/// The colour an on-screen key takes for a letter formatted as `f`.
pub open spec fn osb_format_of(f: Format) -> onscreen_button::Format {
    match f {
        Format::NotUsed => onscreen_button::Format::NoMatch,
        Format::NoMatch => onscreen_button::Format::NoMatch,
        Format::Match => onscreen_button::Format::Match,
        Format::ExactMatch => onscreen_button::Format::ExactMatch,
    }
}

impl Format {
    /// The format of the on-screen key that shows this letter.
    pub fn to_osb_format(&self) -> (r: onscreen_button::Format)
        ensures
            r == osb_format_of(*self),
    {
        match self {
            Format::NotUsed => onscreen_button::Format::NoMatch,
            Format::NoMatch => onscreen_button::Format::NoMatch,
            Format::Match => onscreen_button::Format::Match,
            Format::ExactMatch => onscreen_button::Format::ExactMatch,
        }
    }
}

/// A cell of the letter grid.
#[derive(Debug, Clone, Copy, PartialEq, Eq, Structural)]
pub struct Coord {
    pub column: usize,
    pub row: usize,
}

/// One cell of the letter grid: its content and how it is shown.
#[derive(Debug)]
pub struct Letter {
    pub value: String,
    pub format: Format,
    pub selected: bool,
    pub incorrect: bool,
}

/// Messages a letter cell sends out.
#[derive(Debug)]
pub enum LetterMsgOut {
    Selected(Coord),
}

/// Messages a letter cell accepts.
#[derive(Debug)]
pub enum LetterMsgIn {
    SetContent(Option<String>),
    SetFormat(Format),
    SetSelected(bool),
    SetIncorrect(bool),
}

/// `new` is the cell `old` after the message `msg`: the message sets its one part of the
/// cell and leaves the others.
pub open spec fn updated(old: Letter, new: Letter, msg: LetterMsgIn) -> bool {
    match msg {
        LetterMsgIn::SetContent(v) => {
            &&& new.value@ == (match v {
                Some(s) => s@,
                None => Seq::<char>::empty(),
            })
            &&& new.format == old.format
            &&& new.selected == old.selected
            &&& new.incorrect == old.incorrect
        },
        LetterMsgIn::SetFormat(f) => {
            &&& new.value@ == old.value@
            &&& new.format == f
            &&& new.selected == old.selected
            &&& new.incorrect == old.incorrect
        },
        LetterMsgIn::SetSelected(v) => {
            &&& new.value@ == old.value@
            &&& new.format == old.format
            &&& new.selected == v
            &&& new.incorrect == old.incorrect
        },
        LetterMsgIn::SetIncorrect(v) => {
            &&& new.value@ == old.value@
            &&& new.format == old.format
            &&& new.selected == old.selected
            &&& new.incorrect == v
        },
    }
}

impl Letter {
    /// A fresh, empty cell at `index`; only the top-left cell starts selected.
    pub fn init_model(value: (usize, Format), index: &Coord) -> (r: Letter)
        ensures
            r.value@ == Seq::<char>::empty(),
            r.format == value.1,
            r.incorrect == false,
            r.selected == (index.column == 0 && index.row == 0),
    {
        Letter {
            format: value.1,
            value: String::new(),
            incorrect: false,
            selected: index.column == 0 && index.row == 0,
        }
    }

    /// Applies one message to the cell.
    pub fn update(&mut self, msg: LetterMsgIn)
        ensures
            updated(*old(self), *final(self), msg),
    {
        match msg {
            LetterMsgIn::SetContent(v) => {
                self.value = if let Some(v) = v {
                    v
                } else {
                    String::new()
                }
            },
            LetterMsgIn::SetFormat(f) => self.format = f,
            LetterMsgIn::SetSelected(v) => self.selected = v,
            LetterMsgIn::SetIncorrect(v) => self.incorrect = v,
        }
    }
}

} // verus!
