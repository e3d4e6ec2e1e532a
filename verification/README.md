# Words!

A word guessing game: find the secret word in six tries. After each guess every letter
is coloured: green where it stands at the right place, yellow where the word holds it
elsewhere, grey where it does not hold it (or no copy of it is left over).

The game logic is a Verus library in `src/`, proved against its contracts:

- `game.rs`: colouring a guess (`calculate_color`), drawing the secret word, and laws
  about the colouring.
- `game/app.rs`: the state of a game and how it answers each message of the window
  (`App::update`), with the laws that every message keeps.
- `game/word_list.rs`, `word_list_format.rs`: reading a word list file (keyboard rows,
  word lengths, secret and public words); `game/read_word_list.rs` reads the earlier
  form of the file.
- `game/game_statistics.rs`: the statistics of the games played.
- `check_word_list.rs`, `sorting.rs`: the word list checker that cleans a list up,
  reports on it and writes it back.
- `letter.rs`, `onscreen_button.rs`, `key.rs`: the cells of the grid and the keys of the
  on-screen keyboard; `text.rs`: text helpers.

`app/` is the program around it: the GTK window, files, settings and the network. Run
it with `check-word-list NAME` as arguments to check the word list `NAME`.
