use strict_strings::scanner::{
    is_decodable, process_text_candidate, scan, split_run, trim_line, Scanner,
};
use strict_strings::string_set::{same_text, StringSet};
use strict_strings::text::is_printable;

fn text(s: &str) -> Vec<u8> {
    s.as_bytes().to_vec()
}

fn texts(items: &[&str]) -> Vec<Vec<u8>> {
    items.iter().map(|s| s.as_bytes().to_vec()).collect()
}

#[test]
fn printable_bytes_are_ascii_text_and_three_controls() {
    for c in 0u8..=255 {
        let expected = (32..=126).contains(&c) || c == 9 || c == 10 || c == 13;
        assert_eq!(is_printable(c), expected, "byte {}", c);
    }
    assert!(is_printable(b' '));
    assert!(is_printable(b'~'));
    assert!(!is_printable(127));
    assert!(!is_printable(0));
    assert!(!is_printable(11));
}

#[test]
fn trim_removes_whitespace_at_both_ends_only() {
    assert_eq!(trim_line(&text("  hello world \t")), text("hello world"));
    assert_eq!(trim_line(&text("hello")), text("hello"));
    assert_eq!(trim_line(&text(" \t  ")), text(""));
    assert_eq!(trim_line(&text("")), text(""));
    assert_eq!(trim_line(&text("\x0b\x0cab\x0c")), text("ab"));
    assert_eq!(trim_line(&text("a")), text("a"));
}

#[test]
fn trim_agrees_with_the_standard_library_on_ascii() {
    let samples = ["", " ", "a", " a", "a ", "  a b  ", "\t\ta\t", " \t ", "x y z", "\x0b q \x0c"];
    for s in samples {
        assert_eq!(trim_line(&text(s)), text(s.trim()), "sample {:?}", s);
    }
}

#[test]
fn split_cuts_at_each_line_feed_and_carriage_return() {
    assert_eq!(split_run(&text("ab\ncd")), texts(&["ab", "cd"]));
    assert_eq!(split_run(&text("ab\r\ncd")), texts(&["ab", "", "cd"]));
    assert_eq!(split_run(&text("")), texts(&[""]));
    assert_eq!(split_run(&text("abc\n")), texts(&["abc", ""]));
    assert_eq!(split_run(&text("\rabc")), texts(&["", "abc"]));
    assert_eq!(split_run(&text("no breaks here")), texts(&["no breaks here"]));
}

#[test]
fn split_agrees_with_the_standard_library() {
    let samples = ["", "\n", "\r", "a\nb\rc", "\r\n\r\n", "one two\nthree", "x\n\ny"];
    for s in samples {
        let expected: Vec<Vec<u8>> =
            s.split(|c| c == '\n' || c == '\r').map(|p| p.as_bytes().to_vec()).collect();
        assert_eq!(split_run(&text(s)), expected, "sample {:?}", s);
    }
}

#[test]
fn an_ill_formed_byte_makes_a_run_undecodable() {
    assert!(is_decodable(&text("plain text")));
    assert!(is_decodable(&Vec::new()));
    assert!(!is_decodable(&vec![b'a', 0x80, b'b']));
    assert!(!is_decodable(&vec![0xff]));
    assert!(is_decodable(&vec![0x7f]));
}

#[test]
fn flush_keeps_lines_within_the_bounds() {
    let mut run = text("  hello world  \nshort\r\nexactly6\n");
    let mut unique = StringSet::new();
    let mut rejected = StringSet::new();
    process_text_candidate(&mut run, &mut unique, &mut rejected, false, 6, 200);
    assert!(run.is_empty());
    assert_eq!(unique.to_vec(), texts(&["hello world", "exactly6"]));
    assert_eq!(rejected.len(), 0);
}

#[test]
fn flush_records_rejected_lines_when_logging() {
    let mut run = text("  hello world  \nshort\r\nexactly6\n");
    let mut unique = StringSet::new();
    let mut rejected = StringSet::new();
    process_text_candidate(&mut run, &mut unique, &mut rejected, true, 6, 200);
    assert!(run.is_empty());
    assert_eq!(unique.to_vec(), texts(&["hello world", "exactly6"]));
    assert_eq!(rejected.to_vec(), texts(&["short", ""]));
}

#[test]
fn flush_length_bounds_are_inclusive() {
    let mut run = text("12345\n123456\n1234567\n12345678\n123456789");
    let mut unique = StringSet::new();
    let mut rejected = StringSet::new();
    process_text_candidate(&mut run, &mut unique, &mut rejected, true, 6, 8);
    assert_eq!(unique.to_vec(), texts(&["123456", "1234567", "12345678"]));
    assert_eq!(rejected.to_vec(), texts(&["12345", "123456789"]));
}

#[test]
fn flush_measures_the_trimmed_line() {
    let mut run = text("   abc   \n  abcdef  ");
    let mut unique = StringSet::new();
    let mut rejected = StringSet::new();
    process_text_candidate(&mut run, &mut unique, &mut rejected, true, 6, 6);
    assert_eq!(unique.to_vec(), texts(&["abcdef"]));
    assert_eq!(rejected.to_vec(), texts(&["abc"]));
}

#[test]
fn flush_never_keeps_an_empty_line_even_with_zero_minimum() {
    let mut run = text("\n\n  \na");
    let mut unique = StringSet::new();
    let mut rejected = StringSet::new();
    process_text_candidate(&mut run, &mut unique, &mut rejected, false, 0, 10);
    assert_eq!(unique.to_vec(), texts(&["a"]));
}

#[test]
fn flush_drops_an_undecodable_run_whole_and_clears_it() {
    let mut run = vec![b'h', b'e', b'l', b'l', b'o', b'!', 0xc3, b'\n', b'w', b'o', b'r', b'l', b'd', b'!'];
    let mut unique = StringSet::new();
    let mut rejected = StringSet::new();
    process_text_candidate(&mut run, &mut unique, &mut rejected, true, 1, 200);
    assert!(run.is_empty());
    assert!(unique.is_empty());
    assert!(rejected.is_empty());
}

#[test]
fn flushing_the_same_run_twice_changes_nothing_more() {
    let source = text("first line\nsecond line\nfirst line\n  second line \nx");
    let mut unique = StringSet::new();
    let mut rejected = StringSet::new();
    let mut run = source.clone();
    process_text_candidate(&mut run, &mut unique, &mut rejected, true, 6, 200);
    let once = unique.to_vec();
    let once_rejected = rejected.to_vec();
    assert_eq!(once, texts(&["first line", "second line"]));
    let mut run = source.clone();
    process_text_candidate(&mut run, &mut unique, &mut rejected, true, 6, 200);
    assert_eq!(unique.to_vec(), once);
    assert_eq!(rejected.to_vec(), once_rejected);
}

#[test]
fn every_scanned_string_is_trimmed_and_within_bounds() {
    let mut input: Vec<u8> = Vec::new();
    for i in 0..2000u32 {
        let b = ((i.wrapping_mul(2654435761)) >> 13) as u8;
        input.push(if b % 7 == 0 { b' ' } else if b % 11 == 0 { b'\n' } else { b });
    }
    let scanner = scan(&input, 3, 9, false);
    for s in scanner.unique_strings.to_vec() {
        assert!(!s.is_empty());
        assert!(s.len() >= 3 && s.len() <= 9);
        assert_eq!(trim_line(&s), s);
        assert!(s.iter().all(|&c| is_printable(c)));
    }
}

#[test]
fn scan_separates_runs_at_bytes_that_are_not_text() {
    let input = b"\x00\x01hello world\x00tiny\x02  padded text  \x7f\xffhello world\x00tail end!";
    let scanner = scan(input, 6, 200, true);
    assert_eq!(
        scanner.unique_strings.to_vec(),
        texts(&["hello world", "padded text", "tail end!"])
    );
    assert_eq!(scanner.filtered_by_len.to_vec(), texts(&["", "tiny"]));
    assert!(scanner.text_candidate.is_empty());
}

#[test]
fn scan_in_pieces_equals_scan_at_once() {
    let input = b"alpha beta\ngamma delta\x00epsilon zeta\r\neta theta\x01iota";
    let whole = scan(input, 6, 200, true);
    let mut scanner = Scanner::new(6, 200, true);
    for chunk in input.chunks(7) {
        scanner.feed(chunk);
    }
    scanner.finish();
    assert_eq!(scanner.unique_strings.to_vec(), whole.unique_strings.to_vec());
    assert_eq!(scanner.filtered_by_len.to_vec(), whole.filtered_by_len.to_vec());
    assert_eq!(
        whole.unique_strings.to_vec(),
        texts(&["alpha beta", "gamma delta", "epsilon zeta", "eta theta"])
    );
}

#[test]
fn scan_of_an_empty_input_keeps_nothing() {
    let scanner = scan(&[], 6, 200, true);
    assert!(scanner.unique_strings.is_empty());
    assert_eq!(scanner.unique_strings.len(), 0);
    assert!(scanner.filtered_by_len.is_empty());
}

#[test]
fn scan_of_bytes_without_text_keeps_nothing() {
    let input = [0u8, 1, 2, 200, 255, 127, 31, 11, 12];
    let scanner = scan(&input, 0, 200, false);
    assert!(scanner.unique_strings.is_empty());
}

#[test]
fn a_pending_run_is_flushed_only_at_the_end() {
    let mut scanner = Scanner::new(2, 10, false);
    scanner.feed(b"abc");
    assert!(scanner.unique_strings.is_empty());
    assert_eq!(scanner.text_candidate, text("abc"));
    scanner.push_byte(b'd');
    assert_eq!(scanner.text_candidate, text("abcd"));
    scanner.finish();
    assert_eq!(scanner.unique_strings.to_vec(), texts(&["abcd"]));
    assert!(scanner.text_candidate.is_empty());
}

#[test]
fn string_set_keeps_each_string_once_in_first_order() {
    let mut set = StringSet::new();
    assert!(set.insert(text("b")));
    assert!(set.insert(text("a")));
    assert!(!set.insert(text("b")));
    assert!(set.insert(text("B")));
    assert_eq!(set.len(), 3);
    assert!(set.contains(&text("a")));
    assert!(!set.contains(&text("c")));
    assert_eq!(set.to_vec(), texts(&["b", "a", "B"]));
}

#[test]
fn same_text_compares_byte_for_byte() {
    assert!(same_text(&text("abc"), &text("abc")));
    assert!(!same_text(&text("abc"), &text("abd")));
    assert!(!same_text(&text("abc"), &text("ab")));
    assert!(same_text(&text(""), &text("")));
}

#[test]
fn a_well_formed_multi_byte_run_is_kept_with_its_length_in_bytes() {
    let mut run = vec![0xC3, 0xA9, b'a', b'b', b'c', b'd', b'e'];
    let mut unique = StringSet::new();
    let mut rejected = StringSet::new();
    process_text_candidate(&mut run, &mut unique, &mut rejected, true, 6, 200);
    assert!(run.is_empty());
    assert_eq!(unique.to_vec(), vec![vec![0xC3, 0xA9, b'a', b'b', b'c', b'd', b'e']]);
    assert!(rejected.is_empty());
    let mut run = vec![0xC3, 0xA9, b'a', b'b', b'c', b'd', b'e'];
    let mut exact = StringSet::new();
    process_text_candidate(&mut run, &mut exact, &mut rejected, false, 7, 7);
    assert_eq!(exact.len(), 1);
}

#[test]
fn a_short_multi_byte_line_is_recorded_as_rejected() {
    let mut run = vec![0xC3, 0xA9];
    let mut unique = StringSet::new();
    let mut rejected = StringSet::new();
    process_text_candidate(&mut run, &mut unique, &mut rejected, true, 6, 200);
    assert!(run.is_empty());
    assert!(unique.is_empty());
    assert_eq!(rejected.to_vec(), vec![vec![0xC3, 0xA9]]);
}

#[test]
fn decodable_means_well_formed_utf8() {
    assert!(is_decodable(&"h\u{e9}llo w\u{f6}rld \u{4e16}\u{754c} \u{1f600}".as_bytes().to_vec()));
    assert!(!is_decodable(&vec![0xC3]));
    assert!(!is_decodable(&vec![0xC0, 0x80]));
    assert!(!is_decodable(&vec![0xED, 0xA0, 0x80]));
    assert!(!is_decodable(&vec![0xA9, 0xC3]));
}

#[test]
fn trim_removes_every_white_space_character() {
    let spaces = [
        '\u{9}', '\u{a}', '\u{b}', '\u{c}', '\u{d}', '\u{20}', '\u{85}', '\u{a0}', '\u{1680}',
        '\u{2000}', '\u{2001}', '\u{2002}', '\u{2003}', '\u{2004}', '\u{2005}', '\u{2006}',
        '\u{2007}', '\u{2008}', '\u{2009}', '\u{200a}', '\u{2028}', '\u{2029}', '\u{202f}',
        '\u{205f}', '\u{3000}',
    ];
    for c in spaces {
        assert!(c.is_whitespace());
        let s = format!("{}{}caf\u{e9} au{}lait{}{}", c, c, c, c, c);
        assert_eq!(trim_line(&text(&s)), text(s.trim()), "character {:?}", c);
        assert_eq!(trim_line(&text(&s)), text(&format!("caf\u{e9} au{}lait", c)));
        let only = format!("{}{}", c, c);
        assert_eq!(trim_line(&text(&only)), text(""));
    }
}

#[test]
fn trim_leaves_characters_that_only_look_like_white_space() {
    for s in ["\u{200b}word\u{200b}", "\u{2060}a", "\u{feff}b\u{feff}", "\u{e9}t\u{e9}", "\u{2010}x\u{2011}", "\u{86}y\u{84}", "\u{a1}z\u{9f}"] {
        assert_eq!(trim_line(&text(s)), text(s.trim()), "sample {:?}", s);
        assert_eq!(trim_line(&text(s)), text(s));
    }
}

#[test]
fn trim_agrees_with_the_standard_library_on_every_short_character() {
    for code in 0u32..0x3100 {
        if let Some(c) = char::from_u32(code) {
            let s = format!("{}ab{}", c, c);
            assert_eq!(trim_line(&text(&s)), text(s.trim()), "character U+{:04X}", code);
        }
    }
}
