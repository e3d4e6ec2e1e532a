//! The first form of a cell of the letter grid: a letter, a format, and whether it is selected.
use vstd::prelude::*;

verus! {

/// How a letter of a guess compares with the secret word.
#[derive(Debug, PartialEq, Eq, Structural)]
pub enum Format {
    NotUsed,
    NoMatch,
    Match,
    ExactMatch,
}

/// A cell of the letter grid.
#[derive(Debug, Clone, Copy, Eq, Hash, PartialEq, Structural)]
pub struct Coord {
    pub column: usize,
    pub row: usize,
}

/// One cell of the letter grid.
#[derive(Debug)]
pub struct Letter {
    pub value: String,
    format: Format,
    selected: bool,
}

/// Messages a cell sends out.
#[derive(Debug)]
pub enum LetterMsgOut {
    Selected(Coord),
}

/// Messages a cell accepts.
#[derive(Debug)]
pub enum LetterMsgIn {
    SetContent(Option<String>),
    SetFormat(Format),
    SetSelected(bool),
}

impl Letter {
    /// The text the cell shows.
    pub closed spec fn shown_value(&self) -> Seq<char> {
        self.value@
    }

    /// The format the cell shows.
    pub closed spec fn shown_format(&self) -> Format {
        self.format
    }

    /// Whether the cell shows as selected.
    pub closed spec fn shown_selected(&self) -> bool {
        self.selected
    }

    /// A fresh, empty cell at `index` with the format `value.1`; only the top-left cell
    /// starts selected.
    pub fn init_model(value: (usize, Format), index: &Coord) -> (r: Letter)
        ensures
            r.shown_value() == Seq::<char>::empty(),
            r.shown_format() == value.1,
            r.shown_selected() == (index.column == 0 && index.row == 0),
    {
        Letter {
            format: value.1,
            value: String::new(),
            selected: if index.column == 0 && index.row == 0 {
                true
            } else {
                false
            },
        }
    }

    /// Applies one message: it sets its one part of the cell and leaves the others.
    pub fn update(&mut self, msg: LetterMsgIn)
        ensures
            match msg {
                LetterMsgIn::SetContent(v) => {
                    &&& final(self).shown_value() == (match v {
                        Some(s) => s@,
                        None => Seq::<char>::empty(),
                    })
                    &&& final(self).shown_format() == old(self).shown_format()
                    &&& final(self).shown_selected() == old(self).shown_selected()
                },
                LetterMsgIn::SetFormat(f) => {
                    &&& final(self).shown_value() == old(self).shown_value()
                    &&& final(self).shown_format() == f
                    &&& final(self).shown_selected() == old(self).shown_selected()
                },
                LetterMsgIn::SetSelected(v) => {
                    &&& final(self).shown_value() == old(self).shown_value()
                    &&& final(self).shown_format() == old(self).shown_format()
                    &&& final(self).shown_selected() == v
                },
            },
    {
        match msg {
            LetterMsgIn::SetContent(v) => {
                self.value = if let Some(v) = v {
                    v
                } else {
                    String::new()
                }
            },
            LetterMsgIn::SetFormat(f) => self.format = f,
            LetterMsgIn::SetSelected(v) => self.selected = v,
        }
    }
}

} // verus!
