use vstd::prelude::*;

use crate::text::{char_to_uppercase, char_uppercase};

verus! {

/// How an on-screen key is coloured; later variants rank higher.
#[derive(Debug, PartialEq, Eq, Structural, Copy, Clone)]
pub enum Format {
    NotUsed,
    NoMatch,
    Match,
    ExactMatch,
}

/// The rank of a format: a key only ever moves to a higher rank.
pub open spec fn format_rank(f: Format) -> int {
    match f {
        Format::NotUsed => 0,
        Format::NoMatch => 1,
        Format::Match => 2,
        Format::ExactMatch => 3,
    }
}

impl Format {
    /// The rank of this format, as a number.
    pub fn rank(&self) -> (r: u8)
        ensures
            r == format_rank(*self),
    {
        match self {
            Format::NotUsed => 0,
            Format::NoMatch => 1,
            Format::Match => 2,
            Format::ExactMatch => 3,
        }
    }
}

/// A key of the on-screen keyboard.
#[derive(Debug, Clone, Copy, PartialEq, Eq, Hash, Structural)]
pub enum Key {
    Letter(char),
    Enter,
    Del,
}

impl Key {
    /// The label of the key: its letter in upper case. The keys for entering and deleting
    /// have no label here (`None`): the window labels them in the user's language.
    pub fn get_label(&self) -> (r: Option<String>)
        ensures
            match *self {
                Key::Letter(c) => r matches Some(s) && s@ == char_uppercase(c),
                _ => r is None,
            },
    {
        match self {
            Key::Letter(c) => Some(char_to_uppercase(*c)),
            Key::Enter => None,
            Key::Del => None,
        }
    }
}

/// One button of the on-screen keyboard.
#[derive(Debug)]
pub struct OnScreenButton {
    pub trigger: Key,
    pub format: Format,
}

/// Messages an on-screen button accepts.
#[derive(Debug)]
pub enum OnScreenButtonMsgIn {
    SetFormat(Format),
}

/// The format a button shows after being told `f` while showing `current`.
pub open spec fn raised_format(current: Format, f: Format) -> Format {
    if format_rank(f) > format_rank(current) {
        f
    } else {
        current
    }
}

impl OnScreenButton {
    /// A fresh button for `value`, not yet coloured.
    pub fn init_model(value: Key) -> (r: OnScreenButton)
        ensures
            r.trigger == value,
            r.format == Format::NotUsed,
    {
        OnScreenButton { format: Format::NotUsed, trigger: value }
    }

    /// Applies one message; the colour of a key never goes down.
    pub fn update(&mut self, msg: OnScreenButtonMsgIn)
        ensures
            final(self).trigger == old(self).trigger,
            match msg {
                OnScreenButtonMsgIn::SetFormat(f) => final(self).format == raised_format(old(self).format, f),
            },
            format_rank(final(self).format) >= format_rank(old(self).format),
    {
        match msg {
            OnScreenButtonMsgIn::SetFormat(f) => {
                if f.rank() > self.format.rank() {
                    self.format = f
                }
            },
        }
    }
}

} // verus!
