use tree_edit::entry::Entry;
use tree_edit::ui::{digit_count, entries_to_str, is_whitespace, str_to_entries};

fn entry(id: u64, path: &str) -> Entry {
    Entry::new(Some(id), String::from(path))
}

fn new_entry(path: &str) -> Entry {
    Entry::new(None, String::from(path))
}

#[test]
fn digit_count_of_small_and_large_numbers() {
    assert_eq!(digit_count(0), 1);
    assert_eq!(digit_count(9), 1);
    assert_eq!(digit_count(10), 2);
    assert_eq!(digit_count(99), 2);
    assert_eq!(digit_count(100), 3);
    assert_eq!(digit_count(u64::MAX), 20);
}

#[test]
fn digit_count_agrees_with_the_logarithm() {
    let mut val: u64 = 1;
    while val < u64::MAX / 7 {
        assert_eq!(digit_count(val), val.ilog10() + 1);
        val = val * 7 + 3;
    }
}

#[test]
fn empty_listing_is_empty_text() {
    assert_eq!(entries_to_str(&vec![]), "");
}

#[test]
fn single_entry_has_no_line_break() {
    assert_eq!(entries_to_str(&vec![entry(0, "a.txt")]), "0 a.txt");
}

#[test]
fn ids_are_padded_to_the_widest() {
    let entries = vec![entry(1, "a.txt"), entry(10, "b.txt"), entry(100, "dir/c d.txt")];
    assert_eq!(
        entries_to_str(&entries),
        "1   a.txt\n10  b.txt\n100 dir/c d.txt"
    );
}

#[test]
fn rendering_agrees_with_the_format_macro() {
    let entries: Vec<Entry> = (0..120u64)
        .map(|i| entry(i * 37, &format!("dir/{i}.txt")))
        .collect();
    let width = 4;
    let expected = entries
        .iter()
        .map(|e| format!("{:<width$} {}", e.id.unwrap(), e.path))
        .collect::<Vec<String>>()
        .join("\n");
    assert_eq!(entries_to_str(&entries), expected);
}

#[test]
fn entries_without_id_are_written_as_path() {
    let entries = vec![entry(7, "a.txt"), new_entry("fresh.txt"), entry(12, "b.txt")];
    assert_eq!(entries_to_str(&entries), "7  a.txt\nfresh.txt\n12 b.txt");
    assert_eq!(entries_to_str(&vec![new_entry("only.txt")]), "only.txt");
}

#[test]
fn lines_with_ids_are_read() {
    assert_eq!(
        str_to_entries("1 a.txt\n2 b.txt"),
        vec![entry(1, "a.txt"), entry(2, "b.txt")]
    );
}

#[test]
fn blank_lines_are_skipped() {
    assert_eq!(
        str_to_entries("\n1 a.txt\n\n   \n\t\n2 b.txt\n"),
        vec![entry(1, "a.txt"), entry(2, "b.txt")]
    );
    assert_eq!(str_to_entries(""), vec![]);
    assert_eq!(str_to_entries("\n\n"), vec![]);
}

#[test]
fn lines_are_trimmed() {
    assert_eq!(
        str_to_entries("   12    some dir/b c.txt  \r\n\u{a0}x.txt\u{3000}"),
        vec![entry(12, "some dir/b c.txt"), new_entry("x.txt")]
    );
}

#[test]
fn a_line_without_number_is_a_new_file() {
    assert_eq!(
        str_to_entries("a.txt\n12abc def\n-3 x\nx 5"),
        vec![
            new_entry("a.txt"),
            new_entry("12abc def"),
            new_entry("-3 x"),
            new_entry("x 5")
        ]
    );
}

#[test]
fn a_plus_sign_and_leading_zeros_are_read() {
    assert_eq!(
        str_to_entries("+5 a\n007 b\n+ c"),
        vec![entry(5, "a"), entry(7, "b"), new_entry("+ c")]
    );
}

#[test]
fn a_number_too_large_is_part_of_the_path() {
    assert_eq!(
        str_to_entries("18446744073709551615 a\n18446744073709551616 b"),
        vec![
            entry(u64::MAX, "a"),
            new_entry("18446744073709551616 b")
        ]
    );
}

#[test]
fn a_number_alone_has_an_empty_path() {
    assert_eq!(str_to_entries("5"), vec![entry(5, "")]);
    assert_eq!(str_to_entries("5 \n6\n"), vec![entry(5, ""), entry(6, "")]);
}

#[test]
fn reading_agrees_with_the_standard_library() {
    let text = " 1  a b \n\nfoo\u{2003}bar\n+12\tx\u{85}\n3\u{a0}y\nz 9\n  \n1e3 q\n٣ q\n0x10 r";
    let expected: Vec<Entry> = text
        .split('\n')
        .map(|l| l.trim())
        .filter(|l| !l.is_empty())
        .map(|line| {
            let token = line.split_whitespace().next().unwrap();
            match token.parse::<u64>() {
                Ok(id) => {
                    let rest: String = line.chars().skip(token.chars().count() + 1).collect();
                    Entry::new(Some(id), rest.trim().to_string())
                }
                Err(_) => Entry::new(None, line.to_string()),
            }
        })
        .collect();
    assert_eq!(str_to_entries(text), expected);
}

#[test]
fn white_space_agrees_with_the_standard_library() {
    let mut n: u32 = 0;
    while n < 0x11_0000 {
        if let Some(c) = char::from_u32(n) {
            assert_eq!(is_whitespace(c), c.is_whitespace(), "at {n:#x}");
        }
        n += 1;
    }
}

#[test]
fn written_listing_is_read_back() {
    let entries = vec![
        entry(3, "a.txt"),
        entry(1500, "dir/with blank/b.txt"),
        entry(20, "c"),
    ];
    assert_eq!(str_to_entries(&entries_to_str(&entries)), entries);
}
