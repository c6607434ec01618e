use cutr::count;
use cutr::FileInfo;

#[test]
fn test_count() {
    let text = "I don't want the world. I just want your half.\r\n";
    let info = count(text);

    let expected = FileInfo {
        n_lines: 1,
        n_words: 10,
        n_chars: 48,
        n_bytes: 48,
    };
    assert_eq!(info, expected);
}

#[test]
fn empty_text_counts_nothing() {
    let info = count("");
    assert_eq!(
        info,
        FileInfo {
            n_lines: 0,
            n_words: 0,
            n_bytes: 0,
            n_chars: 0,
        }
    );
}

#[test]
fn unterminated_last_line_still_counts() {
    let info = count("one two\nthree");
    assert_eq!(info.n_lines, 2);
    assert_eq!(info.n_words, 3);
}

#[test]
fn multibyte_chars_count_once_but_weigh_more() {
    let info = count("ábc\n");
    assert_eq!(info.n_chars, 4);
    assert_eq!(info.n_bytes, 5);
    assert_eq!(info.n_lines, 1);
    assert_eq!(info.n_words, 1);
}

#[test]
fn repeated_whitespace_starts_no_extra_word() {
    let info = count("  a\t\tb  \n\nc\n");
    assert_eq!(info.n_words, 3);
    assert_eq!(info.n_lines, 3);
}

#[test]
fn counters_accumulate() {
    let mut total = FileInfo::new();
    total.add_assign(count("one two\n"));
    total.add_assign(count("three\n"));
    assert_eq!(total.n_lines, 2);
    assert_eq!(total.n_words, 3);
    assert_eq!(total.n_bytes, 14);
    assert_eq!(total.n_chars, 14);

    let sum = count("a\n").add(count("b\n"));
    assert_eq!(sum.n_words, 2);
    assert_eq!(sum.n_lines, 2);
}
