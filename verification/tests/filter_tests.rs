use strict_strings::bigrams::{contains_denied_pair, is_denied_pair, is_plausible, ngram_filter};
use strict_strings::density::{contains_marker, density_filter, density_markers, is_dense_enough};
use strict_strings::language::{is_confident, split_by_confidence};
use strict_strings::score::score_less_than;
use strict_strings::text::{contains_bytes, contains_whitespace, matches_at};

fn text(s: &str) -> Vec<u8> {
    s.as_bytes().to_vec()
}

fn texts(items: &[&str]) -> Vec<Vec<u8>> {
    items.iter().map(|s| s.as_bytes().to_vec()).collect()
}

#[test]
fn substring_search_agrees_with_the_standard_library() {
    let hays = ["", "a", "abc", "aaab", "hello%20world", "%0D%0A", "xx%2Fyy", "ababab"];
    let needles = ["", "a", "ab", "b", "%20", "%0D", "%0A", "aab", "bab", "abcd"];
    for h in hays {
        for n in needles {
            assert_eq!(contains_bytes(&text(h), &text(n)), h.contains(n), "{:?} in {:?}", n, h);
        }
    }
}

#[test]
fn matches_at_checks_one_position() {
    assert!(matches_at(&text("hello"), &text("ll"), 2));
    assert!(!matches_at(&text("hello"), &text("ll"), 1));
    assert!(!matches_at(&text("hello"), &text("lo"), 4));
    assert!(matches_at(&text("hello"), &text(""), 5));
    assert!(!matches_at(&text("hello"), &text(""), 6));
}

#[test]
fn whitespace_is_found_anywhere() {
    assert!(contains_whitespace(&text("a b")));
    assert!(contains_whitespace(&text("a\tb")));
    assert!(contains_whitespace(&text("ab\n")));
    assert!(!contains_whitespace(&text("ab%20cd")));
    assert!(!contains_whitespace(&text("")));
}

#[test]
fn the_markers_are_the_eleven_encoded_separators() {
    let expected = texts(&[
        "%20", "%09", "%0A", "%0D%0A", "%0D", "%0C", "%5C", "%3E", "%3C", "%3A", "%2F",
    ]);
    assert_eq!(density_markers(), expected);
}

#[test]
fn each_marker_rescues_a_long_string() {
    for marker in ["%20", "%09", "%0A", "%0D%0A", "%0D", "%0C", "%5C", "%3E", "%3C", "%3A", "%2F"] {
        let s = format!("aaaaaaaaaaaaaaaaaaaaaaaaaaaaaaaaaaa{}bbbbbbbbbb", marker);
        assert!(is_dense_enough(&text(&s), 30), "marker {}", marker);
        assert!(contains_marker(&text(&s), &density_markers()));
    }
}

#[test]
fn lower_case_encodings_are_no_markers() {
    let s = "aaaaaaaaaaaaaaaaaaaaaaaaaaaaaaaaaaa%2fbbbbbbbbbb%3a%0d%0a";
    assert!(!is_dense_enough(&text(s), 30));
    assert!(!contains_marker(&text(s), &density_markers()));
}

#[test]
fn short_strings_always_pass_the_density_filter() {
    let s = "abcdefghijklmnopqrstuvwxyz012";
    assert_eq!(s.len(), 29);
    assert!(is_dense_enough(&text(s), 30));
    let at = "abcdefghijklmnopqrstuvwxyz0123";
    assert_eq!(at.len(), 30);
    assert!(!is_dense_enough(&text(at), 30));
    assert!(is_dense_enough(&text(at), 31));
    assert!(!is_dense_enough(&text(""), 0));
}

#[test]
fn a_long_string_with_a_space_always_passes() {
    let s = "this is a sentence that is well above the threshold";
    assert!(is_dense_enough(&text(s), 30));
    assert!(is_dense_enough(&text(s), 0));
}

#[test]
fn long_string_without_whitespace_is_filtered_by_whitespace() {
    let noise = "ABCDEFGHIJKLMNOPQRSTUVWXYZabcdefghijklmn";
    assert_eq!(noise.len(), 40);
    let input = texts(&["plain words here", noise, "short"]);
    let parts = density_filter(&input, 30);
    assert_eq!(parts.dropped, texts(&[noise]));
    assert_eq!(parts.kept, texts(&["plain words here", "short"]));
    assert!(!parts.kept.contains(&text(noise)));
}

#[test]
fn density_filter_partitions_in_order() {
    let long_plain = "0123456789012345678901234567890123456789";
    let long_url = "http%3A%2F%2Fexample%2Eorg%2Fsome%2Fpath";
    let long_text = "a long line of words that has spaces in it";
    let input = texts(&[long_plain, "tiny", long_url, long_text, long_plain]);
    let parts = density_filter(&input, 30);
    assert_eq!(parts.kept, texts(&["tiny", long_url, long_text]));
    assert_eq!(parts.dropped, texts(&[long_plain, long_plain]));
    let none = density_filter(&Vec::new(), 30);
    assert!(none.kept.is_empty() && none.dropped.is_empty());
}

#[test]
fn the_denylist_is_exactly_the_known_pairs() {
    let pairs = [
        "bk", "fq", "jc", "jt", "mj", "qh", "qx", "vj", "wz", "zh", "bq", "fv", "jd", "jv", "mq",
        "qj", "qy", "vk", "xb", "zj", "bx", "fx", "jf", "jw", "mx", "qk", "qz", "vm", "xg", "zn",
        "cb", "fz", "jg", "jx", "mz", "ql", "sx", "vn", "xj", "zq", "cf", "gq", "jh", "jy", "pq",
        "qm", "sz", "vp", "xk", "zr", "cg", "gv", "jk", "jz", "pv", "qn", "tq", "vq", "xv", "zs",
        "cj", "gx", "jl", "kq", "px", "qo", "tx", "vt", "xz", "zx", "cp", "hk", "jm", "kv", "qb",
        "qp", "vb", "vw", "yq", "cv", "hv", "jn", "kx", "qc", "qr", "vc", "vx", "yv", "cw", "hx",
        "jp", "kz", "qd", "qs", "vd", "vz", "yz", "cx", "hz", "jq", "lq", "qe", "qt", "vf", "wq",
        "zb", "dx", "iy", "jr", "lx", "qf", "qv", "vg", "wv", "zc", "fk", "jb", "js", "mg", "qg",
        "qw", "vh", "wx", "zg",
    ];
    assert_eq!(pairs.len(), 124);
    let mut count = 0;
    for a in 0u8..=255 {
        for b in 0u8..=255 {
            let listed = pairs.iter().any(|p| p.as_bytes() == [a, b]);
            assert_eq!(is_denied_pair(a, b), listed, "pair {} {}", a, b);
            if listed {
                count += 1;
            }
        }
    }
    assert_eq!(count, 124);
}

#[test]
fn denied_pairs_are_case_sensitive() {
    assert!(is_denied_pair(b'j', b'k'));
    assert!(!is_denied_pair(b'J', b'K'));
    assert!(!is_denied_pair(b'J', b'k'));
    assert!(!is_denied_pair(b'k', b'j'));
    assert!(contains_denied_pair(&text("thejk")));
    assert!(!contains_denied_pair(&text("theJK")));
    assert!(!contains_denied_pair(&text("j k")));
    assert!(!contains_denied_pair(&text("j")));
    assert!(!contains_denied_pair(&text("")));
    assert!(contains_denied_pair(&text("qx")));
    assert!(contains_denied_pair(&text("aazg")));
}

#[test]
fn a_denied_pair_removes_a_string_unless_it_has_a_period() {
    assert!(!is_plausible(&text("thejk")));
    assert!(is_plausible(&text("www.jk.com")));
    let parts = ngram_filter(&texts(&["thejk", "www.jk.com"]));
    assert_eq!(parts.kept, texts(&["www.jk.com"]));
    assert_eq!(parts.dropped, texts(&["thejk"]));
}

#[test]
fn a_period_exempts_any_string() {
    for s in ["jk.", ".qxqxqx", "vq zx wq.", "bk.fq.jc", "."] {
        assert!(is_plausible(&text(s)), "{:?}", s);
    }
    let input = texts(&["jk.", "plain words", "zxzx", ".qx", "wvwv"]);
    let parts = ngram_filter(&input);
    assert_eq!(parts.kept, texts(&["jk.", "plain words", ".qx"]));
    assert_eq!(parts.dropped, texts(&["zxzx", "wvwv"]));
}

#[test]
fn score_order_agrees_with_the_numbers() {
    let values = [
        0.0f64, -0.0, 1.0, -1.0, 0.5, 0.8, 0.8333333333333334, 0.7999999999999999, 1e-300,
        -1e-300, 5e-324, f64::INFINITY, f64::NEG_INFINITY, f64::NAN, -f64::NAN, f64::MAX, f64::MIN,
        2.5, -2.5, 0.1, 0.2,
    ];
    for a in values {
        for b in values {
            assert_eq!(score_less_than(a.to_bits(), b.to_bits()), a < b, "{} < {}", a, b);
        }
    }
}

#[test]
fn confidence_must_exceed_the_threshold() {
    assert!(is_confident(0.51f64.to_bits(), 0.5f64.to_bits()));
    assert!(!is_confident(0.5f64.to_bits(), 0.5f64.to_bits()));
    assert!(!is_confident(0.49f64.to_bits(), 0.5f64.to_bits()));
    assert!(is_confident(0.0f64.to_bits(), (-0.1f64).to_bits()));
    assert!(!is_confident(1.0f64.to_bits(), f64::NAN.to_bits()));
}

#[test]
fn split_by_confidence_keeps_strings_above_the_threshold() {
    let input = texts(&["one", "two", "three", "four"]);
    let confidences: Vec<u64> =
        [0.9f64, 0.5, 0.50001, 0.0].iter().map(|c| c.to_bits()).collect();
    let parts = split_by_confidence(&input, &confidences, 0.5f64.to_bits());
    assert_eq!(parts.kept, texts(&["one", "three"]));
    assert_eq!(parts.dropped, texts(&["two", "four"]));
    let none = split_by_confidence(&Vec::new(), &Vec::new(), 0.5f64.to_bits());
    assert!(none.kept.is_empty() && none.dropped.is_empty());
}

#[test]
fn white_space_beyond_ascii_counts_for_the_density_filter() {
    for c in ['\u{85}', '\u{a0}', '\u{1680}', '\u{2003}', '\u{2028}', '\u{202f}', '\u{205f}', '\u{3000}'] {
        let s = format!("aaaaaaaaaaaaaaaaaaaaaaaa{}bbbbbbbbbbbbbbbbbbbbbbbb", c);
        assert!(contains_whitespace(&text(&s)));
        assert!(is_dense_enough(&text(&s), 30));
    }
    let s = "aaaaaaaaaaaaaaaaaaaaaaaa\u{e9}\u{200b}bbbbbbbbbbbbbbbbbbbbbbbb";
    assert!(!contains_whitespace(&text(s)));
    assert!(!is_dense_enough(&text(s), 30));
}
