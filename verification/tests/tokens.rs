use rusty_sorter::token::{token_order, Order};
use rusty_sorter::{classify, extension};

#[test]
fn classify_takes_the_last_extension() {
    assert_eq!(classify("archive.tar.gz"), "GZ");
}

#[test]
fn classify_without_dot_is_else() {
    assert_eq!(classify("README"), "ELSE");
}

#[test]
fn classify_upper_cases() {
    assert_eq!(classify("a.txt"), "TXT");
    assert_eq!(classify("a.TXT"), "TXT");
    assert_eq!(classify("notes.Md"), "MD");
}

#[test]
fn classify_upper_cases_beyond_ascii() {
    assert_eq!(classify("brief.stra\u{df}e"), "STRASSE");
}

#[test]
fn classify_hidden_file_without_extension_is_else() {
    assert_eq!(classify(".bashrc"), "ELSE");
    assert_eq!(classify(".profile.bak"), "BAK");
}

#[test]
fn classify_edge_names() {
    assert_eq!(classify(""), "ELSE");
    assert_eq!(classify(".."), "ELSE");
    assert_eq!(classify("."), "ELSE");
    assert_eq!(classify("trailing."), "");
    assert_eq!(classify("..a"), "A");
    assert_eq!(classify("x.else"), "ELSE");
}

#[test]
fn classify_is_repeatable() {
    assert_eq!(classify("photo.jpeg"), classify("photo.jpeg"));
}

#[test]
fn extension_is_what_follows_the_last_dot() {
    assert_eq!(extension("archive.tar.gz"), Some(String::from("gz")));
    assert_eq!(extension("README"), None);
    assert_eq!(extension(".bashrc"), None);
    assert_eq!(extension("trailing."), Some(String::new()));
    assert_eq!(extension(".."), None);
    assert_eq!(extension("a.b"), Some(String::from("b")));
}

#[test]
fn extension_agrees_with_std_path() {
    let names = [
        "a.txt", "README", ".bashrc", "x.", "..a", "a..b", ".a.b", "a", "", ".", "...", "a.b.c",
    ];
    for name in names {
        let expected = std::path::Path::new(name)
            .extension()
            .map(|e| e.to_str().unwrap().to_string());
        if name.is_empty() || name == "." {
            assert_eq!(extension(name), None);
        } else {
            assert_eq!(extension(name), expected, "{}", name);
        }
    }
}

#[test]
fn token_order_is_by_character_then_length() {
    assert_eq!(token_order("A", "B"), Order::Before);
    assert_eq!(token_order("B", "A"), Order::After);
    assert_eq!(token_order("GZ", "GZ"), Order::Same);
    assert_eq!(token_order("", ""), Order::Same);
    assert_eq!(token_order("", "A"), Order::Before);
    assert_eq!(token_order("MD", "MD5"), Order::Before);
    assert_eq!(token_order("MD5", "MD"), Order::After);
    assert_eq!(token_order("Z", "AA"), Order::After);
}

#[test]
fn token_order_agrees_with_string_order() {
    let words = ["", "A", "AB", "B", "ELSE", "GZ", "TXT", "\u{c9}", "Z\u{10000}", "Z\u{ffff}"];
    for a in words {
        for b in words {
            let expected = if a < b {
                Order::Before
            } else if a == b {
                Order::Same
            } else {
                Order::After
            };
            assert_eq!(token_order(a, b), expected);
        }
    }
}
