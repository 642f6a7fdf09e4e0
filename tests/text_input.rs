use sudoku::command::{is_space_char, parse_command, parse_menu, Command, MenuChoice};
use sudoku::display::board_text;
use sudoku::grid::Board;

fn chars(s: &str) -> Vec<char> {
    s.chars().collect()
}

#[test]
fn done_is_recognised_with_spaces() {
    assert_eq!(parse_command(&chars("done")), Command::Done);
    assert_eq!(parse_command(&chars("  done \n")), Command::Done);
    assert_eq!(parse_command(&chars("done now")), Command::BadFormat);
    assert_eq!(parse_command(&chars("Done")), Command::BadFormat);
}

#[test]
fn three_numbers_make_a_move() {
    assert_eq!(
        parse_command(&chars("1 2 3\n")),
        Command::Move { row: 1, col: 2, num: 3 }
    );
    assert_eq!(
        parse_command(&chars("\t9   8\t7 ")),
        Command::Move { row: 9, col: 8, num: 7 }
    );
    assert_eq!(
        parse_command(&chars("+4 05 +6")),
        Command::Move { row: 4, col: 5, num: 6 }
    );
    assert_eq!(
        parse_command(&chars("12 0 200")),
        Command::Move { row: 12, col: 0, num: 200 }
    );
}

#[test]
fn wrong_word_count_is_bad_format() {
    assert_eq!(parse_command(&chars("")), Command::BadFormat);
    assert_eq!(parse_command(&chars("1 2")), Command::BadFormat);
    assert_eq!(parse_command(&chars("1 2 3 4")), Command::BadFormat);
}

#[test]
fn non_numbers_are_reported() {
    assert_eq!(parse_command(&chars("a 2 3")), Command::NotNumbers);
    assert_eq!(parse_command(&chars("1 -2 3")), Command::NotNumbers);
    assert_eq!(parse_command(&chars("1 2 +")), Command::NotNumbers);
    assert_eq!(parse_command(&chars("1 2 ++3")), Command::NotNumbers);
    assert_eq!(parse_command(&chars("1 2 256")), Command::NotNumbers);
    assert_eq!(parse_command(&chars("99999999999999999999999 2 3")), Command::NotNumbers);
}

#[test]
fn parse_agrees_with_std_on_numbers() {
    for s in ["0", "7", "+7", "255", "256", "-1", "+", "1a", "007", "18446744073709551615"] {
        let line = format!("{} {} {}", s, s, s);
        let expected = match (s.parse::<usize>(), s.parse::<u8>()) {
            (Ok(a), Ok(b)) => Command::Move { row: a, col: a, num: b },
            _ => Command::NotNumbers,
        };
        assert_eq!(parse_command(&chars(&line)), expected);
    }
}

#[test]
fn unicode_space_separates_words() {
    assert_eq!(
        parse_command(&chars("1\u{3000}2\u{a0}3")),
        Command::Move { row: 1, col: 2, num: 3 }
    );
    for c in ['\u{0}', 'a', '\u{200b}', '\u{1f}', '\u{2000}', '\u{85}', '\u{b}', ' '] {
        assert_eq!(is_space_char(c), c.is_whitespace());
    }
}

#[test]
fn menu_words_are_recognised() {
    assert_eq!(parse_menu(&chars("play\n")), MenuChoice::Play);
    assert_eq!(parse_menu(&chars(" bruteforce ")), MenuChoice::Bruteforce);
    assert_eq!(parse_menu(&chars("play now")), MenuChoice::Unknown);
    assert_eq!(parse_menu(&chars("")), MenuChoice::Unknown);
    assert_eq!(parse_menu(&chars("brute force")), MenuChoice::Unknown);
}

#[test]
fn board_text_shows_dots_and_digits() {
    let mut b: Board = [[0; 9]; 9];
    b[0][0] = 5;
    b[8][8] = 9;
    let text: String = board_text(&b).into_iter().collect();
    let lines: Vec<&str> = text.split('\n').collect();
    assert_eq!(lines.len(), 10);
    assert_eq!(lines[0], " 5  .  .  .  .  .  .  .  . ");
    assert_eq!(lines[4], " .  .  .  .  .  .  .  .  . ");
    assert_eq!(lines[8], " .  .  .  .  .  .  .  .  9 ");
    assert_eq!(lines[9], "");
}
