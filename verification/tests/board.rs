use wfeusk::board::{
    horizontal, parse_board_line, parse_board_square, vertical, Board, BoardSquare, Direction,
    ParseError, Pos,
};
use wfeusk::tile::Tile;

fn square(letter_bonus: i32, word_bonus: i32) -> BoardSquare {
    BoardSquare { tile: None, letter_bonus, word_bonus, connected: false }
}

fn tiles(s: &str) -> Vec<Tile> {
    s.chars().map(Tile::from).collect()
}

fn squares_text(squares: &[BoardSquare]) -> String {
    squares.iter().map(|bs| bs.tile.map(char::from).unwrap_or(' ')).collect()
}

fn blomkal_board() -> Board {
    let mut board = Board::default();
    board.play_word(&Pos::new(7, 7), vertical(), "BLOMKÅL");
    board
}

#[test]
fn parse_board_square_empty() {
    assert_eq!(parse_board_square("--"), Ok(square(1, 1)));
}

#[test]
fn parse_board_square_word_bonus() {
    assert_eq!(parse_board_square("3w"), Ok(square(1, 3)));
}

#[test]
fn parse_board_square_letter_bonus() {
    assert_eq!(parse_board_square("2l"), Ok(square(2, 1)));
}

#[test]
fn parse_board_square_error_bonustype() {
    for &illegal_pattern in &["2-", "3 ", "12"] {
        assert_eq!(
            parse_board_square(illegal_pattern),
            Err(ParseError::BonusType {
                bonus: illegal_pattern.chars().nth(1).unwrap(),
                pattern: illegal_pattern.into(),
            }),
            "{}",
            illegal_pattern
        );
    }
}

#[test]
fn parse_board_square_error_bonusdigit() {
    for &illegal_pattern in &["-1", "ww", "lw", " w"] {
        assert_eq!(
            parse_board_square(illegal_pattern),
            Err(ParseError::BonusDigit {
                digit: illegal_pattern.chars().next().unwrap(),
                pattern: illegal_pattern.into(),
            }),
            "{}",
            illegal_pattern
        );
    }
}

#[test]
fn parse_board_square_error_bonustype_multibyte() {
    for &illegal_pattern in &["2å", "3字"] {
        assert_eq!(
            parse_board_square(illegal_pattern),
            Err(ParseError::BonusType {
                bonus: illegal_pattern.chars().nth(1).unwrap(),
                pattern: illegal_pattern.into(),
            }),
            "{}",
            illegal_pattern
        );
    }
}

#[test]
fn parse_board_square_error_bonusdigit_multibyte() {
    for &illegal_pattern in &["ål", "字w"] {
        assert_eq!(
            parse_board_square(illegal_pattern),
            Err(ParseError::BonusDigit {
                digit: illegal_pattern.chars().next().unwrap(),
                pattern: illegal_pattern.into(),
            }),
            "{}",
            illegal_pattern
        );
    }
}

#[test]
fn parse_board_square_error_length() {
    for &illegal_pattern in &["---", "w", "l2 ", " --", "", "l", "10l", "11w"] {
        assert_eq!(
            parse_board_square(illegal_pattern),
            Err(ParseError::Length { pattern: illegal_pattern.into() }),
            "{}",
            illegal_pattern
        );
    }
}

fn parse_to_char(s: &str) -> char {
    parse_board_square(s).unwrap().to_char()
}

#[test]
fn to_char_board_square_empty() {
    assert_eq!(parse_to_char("--"), '·');
}

#[test]
fn to_char_board_square_word_bonus_2() {
    assert_eq!(parse_to_char("2w"), '₂');
}

#[test]
fn to_char_board_square_word_bonus_3() {
    assert_eq!(parse_to_char("3w"), '₃');
}

#[test]
fn to_char_board_square_letter_bonus_2() {
    assert_eq!(parse_to_char("2l"), '²');
}

#[test]
fn to_char_board_square_letter_bonus_3() {
    assert_eq!(parse_to_char("3l"), '³');
}

fn parse_display(s: &str) -> String {
    parse_board_square(s).unwrap().to_string()
}

#[test]
fn display_board_square_empty() {
    assert_eq!(parse_display("--"), "--");
}

#[test]
fn display_board_square_word_bonus_2() {
    assert_eq!(parse_display("2w"), "2w");
}

#[test]
fn display_board_square_word_bonus_3() {
    assert_eq!(parse_display("3w"), "3w");
}

#[test]
fn display_board_square_letter_bonus_2() {
    assert_eq!(parse_display("2l"), "2l");
}

#[test]
fn display_board_square_letter_bonus_3() {
    assert_eq!(parse_display("3l"), "3l");
}

#[test]
fn surrounding_letters() {
    let board = blomkal_board();
    let valid76h = board.get_surrounding_letters(&Pos::new(7, 6), horizontal());
    assert!(valid76h.is_none());

    let valid76v = squares_text(&board.get_surrounding_letters(&Pos::new(7, 6), vertical()).unwrap().squares());
    assert_eq!(valid76v, " BLOMKÅL");
}

#[test]
fn surrounding_letter_pos_start() {
    let board = blomkal_board();
    let slp = board.get_surrounding_letters_pos(&Pos::new(7, 7), vertical()).unwrap();
    assert_eq!((slp.0, slp.1), (7, 7));
}

#[test]
fn surrounding_letter_pos_middle() {
    let board = blomkal_board();
    let slp = board.get_surrounding_letters_pos(&Pos::new(7, 10), vertical()).unwrap();
    assert_eq!((slp.0, slp.1), (7, 7));
}

#[test]
fn surrounding_letter_pos_end() {
    let board = blomkal_board();
    let slp = board.get_surrounding_letters_pos(&Pos::new(7, 13), vertical()).unwrap();
    assert_eq!((slp.0, slp.1), (7, 7));
}

#[test]
fn surrounding_letters_after() {
    let board = blomkal_board();
    let valid = squares_text(&board.get_surrounding_letters(&Pos::new(8, 7), horizontal()).unwrap().squares());
    assert_eq!(valid, "B ");

    let valid76v = squares_text(&board.get_surrounding_letters(&Pos::new(7, 6), vertical()).unwrap().squares());
    assert_eq!(valid76v, " BLOMKÅL");
}

#[test]
fn score() {
    let board = blomkal_board();
    let score = board.calc_word_points(&tiles("SLÅTTER"), &Pos::new(7, 14), horizontal());
    assert_eq!(score, 97);
}

#[test]
fn score_straight() {
    let board = blomkal_board();
    let score = board.calc_word_points_straight(&tiles("SLÅTTER"), &Pos::new(7, 14), horizontal());
    assert_eq!(score, 76);
}

#[test]
fn direction_horizontal() {
    let dir = horizontal();
    assert_eq!(dir.flip(), vertical(), "Flipping horizontal returns a vertical");
    assert_eq!(dir, horizontal(), "Original dir isn't changed by flip()");
    assert_eq!(dir.flip().flip(), horizontal(), "Flipping horizontal twice returns horizontal");
}

#[test]
fn direction_vertical() {
    let dir = vertical();
    assert_eq!(dir.flip(), horizontal(), "Flipping vertical returns a horizontal");
    assert_eq!(dir, vertical(), "Original dir isn't changed by flip()");
    assert_eq!(dir.flip().flip(), vertical(), "Flipping vertical twice returns vertical");
}

#[test]
fn within_bounds() {
    for x in -10..25 {
        for y in -10..25 {
            assert_eq!(
                Board::within_bounds(&Pos::new(x, y)),
                (0..15).contains(&x) && (0..15).contains(&y)
            );
        }
    }
}

#[test]
fn is_connected() {
    let mut board = blomkal_board();
    board.play_word(&Pos::new(7, 10), horizontal(), "MAKALÖS");

    let mut neighbours: Vec<(i32, i32)> = vec![(7, 6), (7, 14), (14, 10)];
    neighbours.extend((7..14).map(|y| (6, y)));
    neighbours.extend((7..14).map(|y| (8, y)));
    neighbours.extend((8..14).map(|x| (x, 9)));
    neighbours.extend((8..14).map(|x| (x, 11)));

    for x in 0..15 {
        for y in 0..15 {
            let pos = Pos::new(x, y);
            if board.is_free(&pos) {
                assert_eq!(board.is_connected(&pos), neighbours.contains(&(x, y)), "x:{}, y:{}", x, y);
            }
        }
    }
}

#[test]
fn pos_addition_horizontal() {
    let pos = Pos::new(1, 5);
    assert_eq!(pos + horizontal(), Pos::new(2, 5));
}

#[test]
fn pos_addition_vertical() {
    let pos = Pos::new(1, 5);
    assert_eq!(pos + vertical(), Pos::new(1, 6));
}

#[test]
fn pos_addition_horizontal_vertical() {
    let pos = Pos::new(6, 7);
    assert_eq!(pos + horizontal() + vertical(), Pos::new(7, 8));
}

#[test]
fn pos_addition_horizontal_vertical_multiplication() {
    let pos = Pos::new(6, 7);
    assert_eq!(pos + horizontal() * 7 + vertical() * -1 + horizontal() * 2, Pos::new(15, 6));
}

#[test]
fn pos_addition_negative_horizontal() {
    let pos = Pos::new(1, 5);
    assert_eq!(pos + -horizontal(), Pos::new(0, 5));
}

#[test]
fn pos_addition_negative_vertical() {
    let pos = Pos::new(1, 5);
    assert_eq!(pos + -vertical(), Pos::new(1, 4));
}

#[test]
fn dir_multiplication_horizontal() {
    assert_eq!(horizontal() * 8, Direction { dx: 8, dy: 0 })
}

#[test]
fn dir_multiplication_vertical() {
    assert_eq!(vertical() * 8, Direction { dx: 0, dy: 8 })
}

#[test]
fn pos_addition_dir_multiplication_horizontal() {
    let pos = Pos::new(1, 5);
    assert_eq!(pos + horizontal() * 8, Pos::new(9, 5))
}

#[test]
fn pos_addition_dir_multiplication_vertical() {
    let pos = Pos::new(1, 5);
    assert_eq!(pos + vertical() * 8, Pos::new(1, 13))
}

#[test]
fn i32_to_char() {
    let expected = [
        (0, '0'),
        (1, '1'),
        (2, '2'),
        (3, '3'),
        (4, '4'),
        (5, '5'),
        (6, '6'),
        (7, '7'),
        (8, '8'),
        (9, '9'),
    ];
    for (i, ch) in expected {
        assert_eq!(BoardSquare::i32_to_char(i), ch);
    }
}

// Further cases.

#[test]
fn dir_multiplication_by_usize() {
    assert_eq!(vertical() * 3usize, Direction { dx: 0, dy: 3 });
    assert_eq!(Pos::new(2, 2) + horizontal() * 4usize, Pos::new(6, 2));
}

#[test]
fn pos_xy() {
    assert_eq!(Pos::new(3, 11).xy(), (3, 11));
}

#[test]
fn default_board_layout() {
    let board = Board::default();
    assert_eq!(board.get(&Pos::new(0, 0)), square(3, 1));
    assert_eq!(board.get(&Pos::new(4, 0)), square(1, 3));
    assert_eq!(board.get(&Pos::new(7, 0)), square(2, 1));
    assert_eq!(board.get(&Pos::new(2, 2)), square(1, 2));
    assert_eq!(board.get(&Pos::new(1, 1)), square(2, 1));
    let mut centre = square(1, 1);
    centre.connected = true;
    assert_eq!(board.get(&Pos::new(7, 7)), centre);
    assert!(!board.is_occupied(&Pos::new(7, 7)));
    assert!(board.is_free(&Pos::new(7, 7)));
}

#[test]
fn default_board_is_symmetric() {
    let board = Board::default();
    for x in 0..15 {
        for y in 0..15 {
            let sq = board.get(&Pos::new(x, y));
            assert_eq!(sq, board.get(&Pos::new(14 - x, y)));
            assert_eq!(sq, board.get(&Pos::new(x, 14 - y)));
        }
    }
}

#[test]
fn default_board_text() {
    let text = Board::default().to_string();
    let lines: Vec<&str> = text.lines().collect();
    assert_eq!(lines.len(), 15);
    assert_eq!(lines[0], "³ · · · ₃ · · ² · · ₃ · · · ³");
    assert_eq!(lines[7], "² · · ₂ · · · · · · · ₂ · · ²");
    assert!(text.ends_with('\n'));
}

#[test]
fn board_text_shows_tiles() {
    let board = blomkal_board();
    let text = board.to_string();
    let lines: Vec<&str> = text.lines().collect();
    assert_eq!(lines[7].chars().nth(14), Some('B'));
    assert_eq!(lines[13].chars().nth(14), Some('L'));
}

#[test]
fn play_word_reads_back() {
    let board = blomkal_board();
    let word: String = "BLOMKÅL".chars().collect();
    for (i, ch) in word.chars().enumerate() {
        assert_eq!(board.get(&Pos::new(7, 7 + i as i32)).tile, Some(Tile::Letter(ch)));
    }
    for i in 0..7 {
        let run = board.get_surrounding_letters(&Pos::new(7, 7 + i), vertical()).unwrap().squares();
        assert_eq!(squares_text(&run), "BLOMKÅL");
    }
    assert!(board.is_free(&Pos::new(7, 6)));
    assert!(board.is_free(&Pos::new(7, 14)));
}

#[test]
fn play_word_over_same_letters() {
    let mut board = blomkal_board();
    board.play_word(&Pos::new(6, 10), horizontal(), "UMS");
    assert_eq!(board.get(&Pos::new(6, 10)).tile, Some(Tile::Letter('U')));
    assert_eq!(board.get(&Pos::new(7, 10)).tile, Some(Tile::Letter('M')));
    assert_eq!(board.get(&Pos::new(8, 10)).tile, Some(Tile::Letter('S')));
}

#[test]
fn set_places_tile() {
    let mut board = Board::default();
    board.set(&Pos::new(3, 4), Tile::Wildcard(Some('Q')));
    assert_eq!(board.get(&Pos::new(3, 4)).tile, Some(Tile::Wildcard(Some('Q'))));
    assert!(board.is_occupied(&Pos::new(3, 4)));
    assert!(!board.is_occupied(&Pos::new(-1, 4)));
    assert!(!board.is_free(&Pos::new(15, 4)));
}

#[test]
fn letter_points() {
    let board = Board::default();
    assert_eq!(board.get_letter_points(Tile::Letter('A')), 1);
    assert_eq!(board.get_letter_points(Tile::Letter('C')), 8);
    assert_eq!(board.get_letter_points(Tile::Letter('Å')), 4);
    assert_eq!(board.get_letter_points(Tile::Letter('W')), 0);
    assert_eq!(board.get_letter_points(Tile::Wildcard(Some('C'))), 0);
}

#[test]
fn score_with_bonuses_and_all_tiles() {
    let board = Board::default();
    // A 7-tile word along the top row from a triple letter square: S(1*3) + A + B(3) +
    // A + on the triple word square D(1) + E + F(3) gets the seven tile bonus.
    let word = tiles("SABADEF");
    assert_eq!(board.calc_word_points_straight(&word, &Pos::new(0, 0), horizontal()), (3 + 1 + 3 + 1 + 1 + 1 + 3) * 3 + 40);
    assert_eq!(board.calc_word_points(&word, &Pos::new(0, 0), horizontal()), (3 + 1 + 3 + 1 + 1 + 1 + 3) * 3 + 40);
}

#[test]
fn score_of_nothing() {
    let board = Board::default();
    assert_eq!(board.calc_word_points(&[], &Pos::new(0, 0), horizontal()), 0);
}

#[test]
fn board_iter_walks_a_line() {
    let board = blomkal_board();
    let mut it = board.get_board_iter(Pos::new(7, 6), 3, vertical());
    assert_eq!(it.next().unwrap().tile, None);
    assert_eq!(it.next().unwrap().tile, Some(Tile::Letter('B')));
    assert_eq!(it.next().unwrap().tile, Some(Tile::Letter('L')));
    assert!(it.next().is_none());
    assert!(it.next().is_none());
}

#[test]
fn parse_line_of_squares() {
    assert_eq!(parse_board_line("3l -- 2w"), Ok(vec![square(3, 1), square(1, 1), square(1, 2)]));
    assert_eq!(
        parse_board_line("3l x 2w"),
        Err(ParseError::Length { pattern: "x".into() })
    );
    assert_eq!(
        parse_board_line("3l  2w"),
        Err(ParseError::Length { pattern: "".into() })
    );
}

#[test]
fn parse_error_text() {
    assert_eq!(
        ParseError::Length { pattern: "abc".into() }.to_string(),
        "Expected pattern with length 2, found 'abc'"
    );
    assert_eq!(
        ParseError::BonusDigit { digit: 'x', pattern: "xw".into() }.to_string(),
        "Expected first character of pattern 'xw' to be a digit but found 'x'"
    );
    assert_eq!(
        ParseError::BonusType { bonus: 'q', pattern: "3q".into() }.to_string(),
        "Expected bonus type of pattern '3q' to be either 'w' or 'l' but found 'q'"
    );
}

#[test]
fn square_text_round_trip() {
    for s in ["--", "0l", "2l", "3w", "9w"] {
        assert_eq!(parse_display(s), s);
    }
    assert_eq!(parse_display("1w"), "--");
}

#[test]
fn pos_text() {
    assert_eq!(Pos::new(7, 14).to_string(), "[7,14]");
    assert_eq!(Pos::new(-3, 0).to_string(), "[-3,0]");
    assert_eq!(Pos::new(i32::MIN, i32::MAX).to_string(), "[-2147483648,2147483647]");
}
