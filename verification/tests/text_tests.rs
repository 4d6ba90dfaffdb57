use sudoku_solver_and_generator::board::Position;
use sudoku_solver_and_generator::matching::{read_number, split_words, trim_line};
use sudoku_solver_and_generator::text::{append_number, render_number, render_positions};

fn pos(row: usize, col: usize) -> Position {
    Position::new(row, col).unwrap()
}

#[test]
fn numbers_are_rendered_in_decimal() {
    assert_eq!(render_number(0), "0");
    assert_eq!(render_number(7), "7");
    assert_eq!(render_number(10), "10");
    assert_eq!(render_number(1234567890), "1234567890");
    assert_eq!(render_number(usize::MAX), usize::MAX.to_string());
    let mut text = String::from("n = ");
    append_number(&mut text, 405);
    assert_eq!(text, "n = 405");
}

#[test]
fn positions_are_rendered_as_a_list_of_pairs() {
    assert_eq!(render_positions(&vec![]), "[]");
    assert_eq!(render_positions(&vec![pos(1, 1)]), "[(1, 1)]");
    assert_eq!(render_positions(&vec![pos(1, 1), pos(9, 2), pos(3, 3)]), "[(1, 1), (9, 2), (3, 3)]");
}

#[test]
fn numbers_are_read_as_the_machine_reads_them() {
    for text in ["0", "7", "007", "+5", "123456", "18446744073709551615", "+0"] {
        assert_eq!(read_number(text), text.parse::<usize>().ok(), "{}", text);
    }
    assert_eq!(read_number("42"), Some(42));
    assert_eq!(read_number("+42"), Some(42));
    assert_eq!(read_number("0042"), Some(42));
}

#[test]
fn what_spells_no_number_is_refused() {
    for text in ["", "+", "-", "-1", "1-", "++1", "1 ", " 1", "1.0", "0x10", "1e3", "\u{661}", "12a", "a12"] {
        assert_eq!(read_number(text), None, "{}", text);
        assert_eq!(text.parse::<usize>().ok(), None, "{}", text);
    }
}

#[test]
fn numbers_beyond_the_machine_are_refused() {
    let max = usize::MAX.to_string();
    assert_eq!(read_number(&max), Some(usize::MAX));
    let mut beyond = max.clone();
    beyond.push('0');
    assert_eq!(read_number(&beyond), None);
    let last = max.chars().last().unwrap();
    let next = char::from_digit(last.to_digit(10).unwrap() + 1, 10).unwrap();
    let mut one_more = max[..max.len() - 1].to_string();
    one_more.push(next);
    assert_eq!(read_number(&one_more), None);
    assert_eq!(one_more.parse::<usize>().ok(), None);
}

#[test]
fn rendering_and_reading_agree() {
    for n in [0, 1, 9, 10, 99, 100, 12345, usize::MAX - 1, usize::MAX] {
        assert_eq!(read_number(&render_number(n)), Some(n));
    }
}

#[test]
fn lines_are_trimmed_as_the_machine_trims_them() {
    for line in ["", " ", "a", " a", "a ", "  a b  ", "\t\na b\r\n", "\u{a0}x\u{2003}", " \u{3000} ", "a\u{200b}"] {
        assert_eq!(trim_line(line), line.trim(), "{:?}", line);
    }
    assert_eq!(trim_line("  SUM [1,1] 7 \n"), "SUM [1,1] 7");
}

#[test]
fn lines_are_split_as_the_machine_splits_them() {
    for line in ["", " ", "a", " a", "a ", "  a b  ", "m 1\t2\n3", "\u{a0}x\u{2003}yz", "one", " one  two three "] {
        let words: Vec<String> = line.split_whitespace().map(|w| w.to_string()).collect();
        assert_eq!(split_words(line), words, "{:?}", line);
    }
    assert_eq!(split_words(" m  1 2\t3 \n"), vec!["m", "1", "2", "3"]);
}
