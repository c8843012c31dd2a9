use forest_planner::action::{sort_canonical, text_precedes, Action};
use forest_planner::protocol::{
    cell_from, chars_of, parse_action, parse_leading_numbers, parse_number, split_fields,
    tree_from,
};

fn chars(text: &str) -> Vec<char> {
    text.chars().collect()
}

#[test]
fn grow_text_names_the_cell() {
    assert_eq!(Action::Grow(5).to_text(), "GROW 5");
    assert_eq!(Action::Grow(0).to_text(), "GROW 0");
    assert_eq!(Action::Grow(36).to_text(), "GROW 36");
}

#[test]
fn seed_text_names_origin_before_target() {
    assert_eq!(Action::Seed(12, 3).to_text(), "SEED 3 12");
    assert_eq!(Action::Seed(0, 36).to_text(), "SEED 36 0");
}

#[test]
fn complete_wait_and_null_texts() {
    assert_eq!(Action::Complete(17).to_text(), "COMPLETE 17");
    assert_eq!(Action::Wait.to_text(), "WAIT");
    assert_eq!(Action::Null.to_text(), "NULL");
}

#[test]
fn text_of_extreme_numbers() {
    assert_eq!(Action::Grow(-1).to_text(), "GROW -1");
    assert_eq!(Action::Grow(i32::MAX).to_text(), "GROW 2147483647");
    assert_eq!(Action::Grow(i32::MIN).to_text(), "GROW -2147483648");
    assert_eq!(Action::Seed(-10, 100).to_text(), "SEED 100 -10");
}

#[test]
fn text_chars_agree_with_text() {
    let actions = vec![
        Action::Grow(7),
        Action::Seed(21, 4),
        Action::Complete(30),
        Action::Wait,
        Action::Null,
        Action::Grow(i32::MIN),
    ];
    for action in actions {
        let from_chars: String = action.text_chars().into_iter().collect();
        assert_eq!(from_chars, action.to_text());
    }
}

#[test]
fn text_order_is_lexicographic() {
    assert!(text_precedes(&chars("GROW 10"), &chars("GROW 2")));
    assert!(!text_precedes(&chars("GROW 2"), &chars("GROW 10")));
    assert!(text_precedes(&chars("COMPLETE 9"), &chars("GROW 0")));
    assert!(text_precedes(&chars("SEED 1 5"), &chars("SEED 12 3")));
    assert!(text_precedes(&chars("GROW"), &chars("GROW 1")));
    assert!(!text_precedes(&chars("WAIT"), &chars("WAIT")));
    assert!(text_precedes(&chars(""), &chars("A")));
    assert!(!text_precedes(&chars("A"), &chars("")));
}

#[test]
fn text_order_agrees_with_string_order() {
    let texts = ["GROW 1", "GROW 10", "GROW 2", "SEED 3 4", "SEED 30 4", "WAIT", "COMPLETE 5", ""];
    for a in texts.iter() {
        for b in texts.iter() {
            assert_eq!(text_precedes(&chars(a), &chars(b)), a < b, "{:?} {:?}", a, b);
        }
    }
}

#[test]
fn sort_puts_actions_in_text_order() {
    let actions = vec![
        Action::Wait,
        Action::Grow(2),
        Action::Seed(2, 1),
        Action::Grow(10),
        Action::Complete(3),
        Action::Seed(5, 12),
        Action::Seed(30, 1),
    ];
    let sorted = sort_canonical(actions);
    let texts: Vec<String> = sorted.iter().map(|a| a.to_text()).collect();
    assert_eq!(
        texts,
        vec!["COMPLETE 3", "GROW 10", "GROW 2", "SEED 1 2", "SEED 1 30", "SEED 12 5", "WAIT"]
    );
}

#[test]
fn sort_agrees_with_sorting_the_strings() {
    let actions = vec![
        Action::Grow(21),
        Action::Grow(3),
        Action::Grow(12),
        Action::Grow(1),
        Action::Complete(20),
        Action::Complete(2),
        Action::Seed(9, 10),
        Action::Seed(10, 9),
        Action::Seed(1, 100),
    ];
    let mut expected: Vec<String> = actions.iter().map(|a| a.to_text()).collect();
    expected.sort();
    let sorted: Vec<String> = sort_canonical(actions).iter().map(|a| a.to_text()).collect();
    assert_eq!(sorted, expected);
}

#[test]
fn sort_keeps_repeated_actions() {
    let sorted = sort_canonical(vec![Action::Wait, Action::Grow(1), Action::Wait, Action::Grow(1)]);
    assert_eq!(sorted, vec![Action::Grow(1), Action::Grow(1), Action::Wait, Action::Wait]);
    assert_eq!(sort_canonical(vec![]), vec![]);
}

#[test]
fn parse_number_reads_signs_and_digits() {
    assert_eq!(parse_number(&chars("0")), Some(0));
    assert_eq!(parse_number(&chars("42")), Some(42));
    assert_eq!(parse_number(&chars("-1")), Some(-1));
    assert_eq!(parse_number(&chars("+7")), Some(7));
    assert_eq!(parse_number(&chars("007")), Some(7));
    assert_eq!(parse_number(&chars("-0")), Some(0));
}

#[test]
fn parse_number_trims_blanks() {
    assert_eq!(parse_number(&chars(" 12\n")), Some(12));
    assert_eq!(parse_number(&chars("\t-3\r\n")), Some(-3));
    assert_eq!(parse_number(&chars("1 2")), None);
}

#[test]
fn parse_number_rejects_what_is_no_number() {
    assert_eq!(parse_number(&chars("")), None);
    assert_eq!(parse_number(&chars("  ")), None);
    assert_eq!(parse_number(&chars("-")), None);
    assert_eq!(parse_number(&chars("+")), None);
    assert_eq!(parse_number(&chars("12a")), None);
    assert_eq!(parse_number(&chars("--1")), None);
    assert_eq!(parse_number(&chars("1.5")), None);
}

#[test]
fn parse_number_checks_the_range() {
    assert_eq!(parse_number(&chars("2147483647")), Some(i32::MAX));
    assert_eq!(parse_number(&chars("2147483648")), None);
    assert_eq!(parse_number(&chars("-2147483648")), Some(i32::MIN));
    assert_eq!(parse_number(&chars("-2147483649")), None);
    assert_eq!(parse_number(&chars("99999999999999999999999999")), None);
    assert_eq!(parse_number(&chars("00000000000000000000000001")), Some(1));
}

#[test]
fn parse_number_agrees_with_std() {
    let texts = ["5", "-5", "+5", "05", " 5 ", "", "x", "5x", "2147483647", "2147483648", "-2147483648"];
    for text in texts.iter() {
        assert_eq!(parse_number(&chars(text)), text.trim().parse::<i32>().ok(), "{:?}", text);
    }
}

#[test]
fn fields_are_split_at_single_spaces() {
    let parts: Vec<String> =
        split_fields(&chars("SEED 3 12")).into_iter().map(|p| p.into_iter().collect()).collect();
    assert_eq!(parts, vec!["SEED", "3", "12"]);
    let parts: Vec<String> =
        split_fields(&chars("a  b ")).into_iter().map(|p| p.into_iter().collect()).collect();
    assert_eq!(parts, vec!["a", "", "b", ""]);
    let parts: Vec<String> =
        split_fields(&chars("")).into_iter().map(|p| p.into_iter().collect()).collect();
    assert_eq!(parts, vec![""]);
}

#[test]
fn chars_of_keeps_the_text() {
    assert_eq!(chars_of("GROW 5"), chars("GROW 5"));
    assert_eq!(chars_of(""), chars(""));
}

#[test]
fn leading_numbers_are_read_from_the_first_fields() {
    assert_eq!(parse_leading_numbers("0 3 1 2 3 4 5 6", 8), Some(vec![0, 3, 1, 2, 3, 4, 5, 6]));
    assert_eq!(
        parse_leading_numbers("7 2 -1 -1 -1 1 0 6\n", 8),
        Some(vec![7, 2, -1, -1, -1, 1, 0, 6])
    );
    assert_eq!(parse_leading_numbers("20", 1), Some(vec![20]));
    assert_eq!(parse_leading_numbers("20 21", 0), Some(vec![]));
    assert_eq!(parse_leading_numbers("", 0), Some(vec![]));
}

#[test]
fn fields_after_the_leading_ones_are_not_read() {
    assert_eq!(parse_leading_numbers("10 5 x", 2), Some(vec![10, 5]));
    assert_eq!(parse_leading_numbers("10 5 x", 3), None);
    assert_eq!(parse_leading_numbers("10 5  ", 2), Some(vec![10, 5]));
    assert_eq!(parse_leading_numbers("1 2 3 4 5", 4), Some(vec![1, 2, 3, 4]));
}

#[test]
fn leading_numbers_need_enough_fields_that_write_numbers() {
    assert_eq!(parse_leading_numbers("1 2 3", 4), None);
    assert_eq!(parse_leading_numbers("", 1), None);
    assert_eq!(parse_leading_numbers("1  2", 2), None);
    assert_eq!(parse_leading_numbers("1 x", 2), None);
    assert_eq!(parse_leading_numbers("x 1", 1), None);
}

#[test]
fn every_white_space_character_is_trimmed() {
    let blanks = [
        '\u{9}', '\u{a}', '\u{b}', '\u{c}', '\u{d}', '\u{20}', '\u{85}', '\u{a0}', '\u{1680}',
        '\u{2000}', '\u{2001}', '\u{2005}', '\u{200a}', '\u{2028}', '\u{2029}', '\u{202f}',
        '\u{205f}', '\u{3000}',
    ];
    for blank in blanks {
        assert!(blank.is_whitespace());
        let text: Vec<char> = vec![blank, '4', '2', blank, blank];
        assert_eq!(parse_number(&text), Some(42), "{:?}", blank);
        let inside: Vec<char> = vec!['4', blank, '2'];
        assert_eq!(parse_number(&inside), None, "{:?}", blank);
    }
    assert_eq!(parse_action("GROW 5\u{a0}"), Some(Action::Grow(5)));
    assert_eq!(parse_action("SEED \u{3000}3\t \u{2003}12\u{85}"), Some(Action::Seed(12, 3)));
    assert_eq!(parse_leading_numbers("1\u{a0} \u{2028}2", 2), Some(vec![1, 2]));
}

#[test]
fn other_characters_are_not_trimmed() {
    for other in ['\u{8}', '\u{e}', '\u{1f}', '\u{21}', '\u{84}', '\u{86}', '\u{9f}', '\u{a1}',
        '\u{167f}', '\u{1681}', '\u{1fff}', '\u{200b}', '\u{2027}', '\u{202a}', '\u{202e}',
        '\u{2030}', '\u{205e}', '\u{2060}', '\u{2fff}', '\u{3001}', '\u{feff}', '0', 'a']
    {
        assert!(!other.is_whitespace());
        let text: Vec<char> = vec!['7', other];
        if other != '0' {
            assert_eq!(parse_number(&text), None, "{:?}", other);
        }
        let text: Vec<char> = vec![other, '7', ' '];
        if other != '0' {
            assert_eq!(parse_number(&text), None, "{:?}", other);
        }
    }
}

#[test]
fn trimming_agrees_with_std_on_every_character() {
    let mut code: u32 = 0;
    while code <= 0x3100 {
        if let Some(c) = char::from_u32(code) {
            let text: Vec<char> = vec![c, '1', c];
            let expected = if c.is_whitespace() {
                Some(1)
            } else if c == '+' {
                None
            } else {
                text.iter().collect::<String>().trim().parse::<i32>().ok()
            };
            assert_eq!(parse_number(&text), expected, "{:x}", code);
        }
        code += 1;
    }
}

#[test]
fn parse_action_reads_each_verb() {
    assert_eq!(parse_action("GROW 5"), Some(Action::Grow(5)));
    assert_eq!(parse_action("COMPLETE 12"), Some(Action::Complete(12)));
    assert_eq!(parse_action("WAIT"), Some(Action::Wait));
    assert_eq!(parse_action("SEED 3 12"), Some(Action::Seed(12, 3)));
}

#[test]
fn parse_action_rejects_other_text() {
    assert_eq!(parse_action("NULL"), None);
    assert_eq!(parse_action(""), None);
    assert_eq!(parse_action("grow 5"), None);
    assert_eq!(parse_action("GROW"), None);
    assert_eq!(parse_action("GROW x"), None);
    assert_eq!(parse_action("SEED 3"), None);
    assert_eq!(parse_action(" WAIT"), None);
    assert_eq!(parse_action("JUMP 1"), None);
}

#[test]
fn parse_action_ignores_further_fields() {
    assert_eq!(parse_action("GROW 5 hello"), Some(Action::Grow(5)));
    assert_eq!(parse_action("WAIT for it"), Some(Action::Wait));
}

#[test]
fn parsing_the_text_gives_the_action_back() {
    let actions = vec![
        Action::Grow(0),
        Action::Grow(36),
        Action::Grow(-7),
        Action::Complete(19),
        Action::Seed(4, 22),
        Action::Seed(i32::MAX, i32::MIN),
        Action::Wait,
    ];
    for action in actions {
        assert_eq!(parse_action(&action.to_text()), Some(action));
    }
    assert_eq!(parse_action(&Action::Null.to_text()), None);
}

#[test]
fn cell_from_takes_eight_numbers() {
    let cell = cell_from(&vec![4, 2, 5, -1, 6, 7, 8, 9]).unwrap();
    assert_eq!(cell.index, 4);
    assert_eq!(cell.richness, 2);
    assert_eq!(cell.neighbors, [5, -1, 6, 7, 8, 9]);
    assert!(cell_from(&vec![4, 2, 5, -1, 6, 7, 8]).is_none());
    assert!(cell_from(&vec![4, 2, 5, -1, 6, 7, 8, 9, 10]).is_some());
}

#[test]
fn tree_from_takes_four_numbers() {
    let tree = tree_from(&vec![9, 2, 1, 0]).unwrap();
    assert_eq!(tree.cell_index, 9);
    assert_eq!(tree.size, 2);
    assert!(tree.is_mine);
    assert!(!tree.is_dormant);
    let tree = tree_from(&vec![3, 0, 0, 1]).unwrap();
    assert!(!tree.is_mine);
    assert!(tree.is_dormant);
    assert!(tree_from(&vec![9, 2, 1]).is_none());
}
