pub mod check_word_list;
pub mod counting;
pub mod game;
pub mod key;
pub mod letter;
pub mod modals;
pub mod onscreen_button;
pub mod sorting;
pub mod text;
pub mod word_list_format;
