use task_manager::record::{parse_line, parse_status, push_line};
use task_manager::task::{Task, TaskStatus};
use task_manager::text::{chars_of, find_char, parse_u32, push_decimal, string_of};

fn chars(s: &str) -> Vec<char> {
    s.chars().collect()
}

fn read_u32(s: &str) -> Option<u32> {
    parse_u32(&chars(s))
}

fn read_line(s: &str) -> Option<(u32, String, String, TaskStatus)> {
    parse_line(&chars(s)).map(|t| {
        (t.id(), t.title().to_string(), t.description().to_string(), t.status())
    })
}

#[test]
fn chars_of_gives_the_characters_in_order() {
    assert_eq!(chars_of("a|é\n"), vec!['a', '|', 'é', '\n']);
    assert_eq!(chars_of(""), Vec::<char>::new());
}

#[test]
fn string_of_builds_the_string() {
    assert_eq!(string_of(&['h', 'é', 'y']), "héy");
    assert_eq!(string_of(&[]), "");
}

#[test]
fn find_char_gives_first_position_or_length() {
    let text = chars("ab|cd|e");
    assert_eq!(find_char(&text, 0, '|'), 2);
    assert_eq!(find_char(&text, 2, '|'), 2);
    assert_eq!(find_char(&text, 3, '|'), 5);
    assert_eq!(find_char(&text, 6, '|'), 7);
    assert_eq!(find_char(&text, 7, '|'), 7);
}

#[test]
fn parse_u32_reads_plain_numbers() {
    assert_eq!(read_u32("0"), Some(0));
    assert_eq!(read_u32("7"), Some(7));
    assert_eq!(read_u32("42"), Some(42));
    assert_eq!(read_u32("4294967295"), Some(u32::MAX));
}

#[test]
fn parse_u32_allows_plus_sign_and_leading_zeros() {
    assert_eq!(read_u32("+5"), Some(5));
    assert_eq!(read_u32("007"), Some(7));
    assert_eq!(read_u32("+000"), Some(0));
    assert_eq!(read_u32("00000000000000000004294967295"), Some(u32::MAX));
}

#[test]
fn parse_u32_rejects_everything_else() {
    for bad in [
        "", "+", "-", "-1", "-0", "++1", "+-1", "1+", " 1", "1 ", "1.0", "0x10", "abc", "12a",
        "4294967296", "99999999999999999999", "１２",
    ] {
        assert_eq!(read_u32(bad), None, "{:?}", bad);
    }
}

#[test]
fn parse_u32_agrees_with_the_standard_parser() {
    for s in [
        "", "0", "1", "+1", "-1", "+", "-", "10", "010", "4294967295", "4294967296",
        "42949672950", "+4294967295", "12 ", "a", "9a", "٣", "1_000",
    ] {
        assert_eq!(read_u32(s), s.parse::<u32>().ok(), "{:?}", s);
    }
}

#[test]
fn push_decimal_appends_shortest_notation() {
    for n in [0u32, 1, 9, 10, 11, 99, 100, 12345, 4294967295] {
        let mut out = String::from("x");
        push_decimal(&mut out, n);
        assert_eq!(out, format!("x{}", n));
    }
}

#[test]
fn parse_status_knows_the_three_words_only() {
    assert_eq!(parse_status(&chars("Pending")), Some(TaskStatus::Pending));
    assert_eq!(parse_status(&chars("Completed")), Some(TaskStatus::Completed));
    assert_eq!(parse_status(&chars("Deleted")), Some(TaskStatus::Deleted));
    for bad in ["", "pending", "PENDING", "Pending ", " Pending", "Pendin", "Pendingg", "Done", "Deleted\r"] {
        assert_eq!(parse_status(&chars(bad)), None, "{:?}", bad);
    }
}

#[test]
fn parse_line_reads_a_well_formed_line() {
    assert_eq!(
        read_line("3|Ok|Desc|Pending"),
        Some((3, String::from("Ok"), String::from("Desc"), TaskStatus::Pending))
    );
    assert_eq!(
        read_line("10|Buy milk|2%|Completed"),
        Some((10, String::from("Buy milk"), String::from("2%"), TaskStatus::Completed))
    );
    assert_eq!(
        read_line("+4||  |Deleted"),
        Some((4, String::new(), String::from("  "), TaskStatus::Deleted))
    );
}

#[test]
fn parse_line_rejects_wrong_number_of_fields() {
    for bad in ["", "1", "2|Bad|Row", "1|a", "1|a|b|Pending|", "1|a|b|c|Pending", "|||", "||||"] {
        assert_eq!(read_line(bad), None, "{:?}", bad);
    }
}

#[test]
fn parse_line_rejects_bad_id_or_status() {
    for bad in [
        "x|a|b|Pending", "|a|b|Pending", "-1|a|b|Pending", "1 |a|b|Pending",
        "4294967296|a|b|Pending", "1|a|b|pending", "1|a|b|", "1|a|b|Pending ", "1|a|b|Pending\r",
    ] {
        assert_eq!(read_line(bad), None, "{:?}", bad);
    }
}

#[test]
fn parse_line_agrees_with_split_and_parse_of_the_standard_library() {
    for line in [
        "1|a|b|Pending", "1|a|b", "1||b|Deleted", "a|b|c|d", "+7|x|y|Completed", "7|x|y|Completed|",
        "|", "", "5|é|ü|Pending", "05|t|d|Deleted",
    ] {
        let parts: Vec<&str> = line.split('|').collect();
        let expected = if parts.len() == 4 {
            match (parts[0].parse::<u32>(), parts[3]) {
                (Ok(id), "Pending") => Some((id, parts[1].to_string(), parts[2].to_string(), TaskStatus::Pending)),
                (Ok(id), "Completed") => Some((id, parts[1].to_string(), parts[2].to_string(), TaskStatus::Completed)),
                (Ok(id), "Deleted") => Some((id, parts[1].to_string(), parts[2].to_string(), TaskStatus::Deleted)),
                _ => None,
            }
        } else {
            None
        };
        assert_eq!(read_line(line), expected, "{:?}", line);
    }
}

#[test]
fn push_line_writes_four_fields_and_a_line_feed() {
    let mut out = String::new();
    let mut task = Task::new(1, String::from("Buy milk"), String::from("2%"));
    push_line(&mut out, &task);
    assert_eq!(out, "1|Buy milk|2%|Pending\n");
    task.mark_completed();
    push_line(&mut out, &task);
    assert_eq!(out, "1|Buy milk|2%|Pending\n1|Buy milk|2%|Completed\n");
    let mut other = Task::new(4294967295, String::new(), String::new());
    other.mark_deleted();
    let mut line = String::new();
    push_line(&mut line, &other);
    assert_eq!(line, "4294967295|||Deleted\n");
}

#[test]
fn written_line_reads_back() {
    let mut task = Task::new(77, String::from("naïve title"), String::from("déscription\r"));
    task.mark_deleted();
    let mut out = String::new();
    push_line(&mut out, &task);
    let line = out.strip_suffix('\n').unwrap();
    assert_eq!(
        read_line(line),
        Some((77, String::from("naïve title"), String::from("déscription\r"), TaskStatus::Deleted))
    );
}
