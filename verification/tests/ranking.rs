use rusty_sorter::rank::{count_token, decimal_text};
use rusty_sorter::sorted::insert_sorted;
use rusty_sorter::{
    distinct_tokens, get_file_ext_names, get_file_extensions, rank_tokens, FileEntry,
    RankedFolderMap,
};

fn files(names: &[&str]) -> Vec<FileEntry> {
    names
        .iter()
        .map(|n| FileEntry { parent: String::from("/work"), name: n.to_string() })
        .collect()
}

fn strings(words: &[&str]) -> Vec<String> {
    words.iter().map(|w| w.to_string()).collect()
}

fn pairs(map: &RankedFolderMap) -> Vec<(String, String)> {
    map.entries.iter().map(|e| (e.token.clone(), e.folder.clone())).collect()
}

#[test]
fn extensions_are_sorted_and_distinct() {
    let got = get_file_extensions(&files(&["b.txt", "a.md", "c.TXT", "README", "d.md", "e.c"]));
    assert_eq!(got, strings(&["C", "ELSE", "MD", "TXT"]));
}

#[test]
fn extensions_of_no_file() {
    assert_eq!(get_file_extensions(&files(&[])), Vec::<String>::new());
}

#[test]
fn distinct_tokens_drops_repeats() {
    let got = distinct_tokens(&strings(&["B", "A", "B", "C", "A", "AB"]));
    assert_eq!(got, strings(&["A", "AB", "B", "C"]));
}

#[test]
fn insert_sorted_keeps_order_and_uniqueness() {
    let mut d = strings(&["A", "C", "E"]);
    insert_sorted(&mut d, String::from("D"));
    assert_eq!(d, strings(&["A", "C", "D", "E"]));
    insert_sorted(&mut d, String::from("C"));
    assert_eq!(d, strings(&["A", "C", "D", "E"]));
    insert_sorted(&mut d, String::from("Z"));
    insert_sorted(&mut d, String::from(""));
    assert_eq!(d, strings(&["", "A", "C", "D", "E", "Z"]));
}

#[test]
fn count_token_counts_equal_tokens() {
    let toks = strings(&["A", "B", "A", "AA", "A"]);
    assert_eq!(count_token(&toks, "A"), 3);
    assert_eq!(count_token(&toks, "AA"), 1);
    assert_eq!(count_token(&toks, "C"), 0);
}

#[test]
fn decimal_text_writes_numbers() {
    assert_eq!(decimal_text(0), "0");
    assert_eq!(decimal_text(7), "7");
    assert_eq!(decimal_text(10), "10");
    assert_eq!(decimal_text(109), "109");
    assert_eq!(decimal_text(1234567890), "1234567890");
    assert_eq!(decimal_text(usize::MAX), usize::MAX.to_string());
}

#[test]
fn rank_of_no_file_is_empty() {
    let map = get_file_ext_names(&files(&[]));
    assert!(map.is_empty());
    assert_eq!(map.len(), 0);
}

#[test]
fn rank_of_single_file_is_empty() {
    let map = get_file_ext_names(&files(&["x.log"]));
    assert!(map.is_empty());
}

#[test]
fn rank_of_one_extension_is_empty() {
    let map = get_file_ext_names(&files(&["a.log", "b.LOG", "c.Log"]));
    assert!(map.is_empty());
    assert_eq!(map.get("LOG"), None);
}

#[test]
fn rank_scenario_txt_and_md() {
    let map = get_file_ext_names(&files(&["a.TXT", "b.txt", "c.md"]));
    assert_eq!(
        pairs(&map),
        vec![
            (String::from("MD"), String::from("2-MD")),
            (String::from("TXT"), String::from("1-TXT")),
        ]
    );
    assert_eq!(map.get("MD"), Some(String::from("2-MD")));
    assert_eq!(map.get("TXT"), Some(String::from("1-TXT")));
    assert_eq!(map.get("md"), None);
    assert_eq!(map.len(), 2);
}

#[test]
fn rank_breaks_ties_by_token() {
    let map = rank_tokens(&strings(&["A", "B", "C", "B", "A"]));
    assert_eq!(map.get("C"), Some(String::from("3-C")));
    assert_eq!(map.get("A"), Some(String::from("2-A")));
    assert_eq!(map.get("B"), Some(String::from("1-B")));
    assert_eq!(map.len(), 3);
}

#[test]
fn rank_most_frequent_gets_one() {
    let map =
        get_file_ext_names(&files(&["a.rs", "b.rs", "c.rs", "d.toml", "e.md", "f.md", "LICENSE"]));
    assert_eq!(map.get("RS"), Some(String::from("1-RS")));
    assert_eq!(map.get("MD"), Some(String::from("2-MD")));
    assert_eq!(map.get("TOML"), Some(String::from("3-TOML")));
    assert_eq!(map.get("ELSE"), Some(String::from("4-ELSE")));
}

#[test]
fn rank_is_repeatable_and_ignores_file_order() {
    let one = get_file_ext_names(&files(&["a.x", "b.y", "c.y", "d.z"]));
    let two = get_file_ext_names(&files(&["a.x", "b.y", "c.y", "d.z"]));
    let shuffled = get_file_ext_names(&files(&["d.z", "c.y", "a.x", "b.y"]));
    assert_eq!(pairs(&one), pairs(&two));
    assert_eq!(pairs(&one), pairs(&shuffled));
    assert_eq!(
        pairs(&one),
        vec![
            (String::from("X"), String::from("3-X")),
            (String::from("Y"), String::from("1-Y")),
            (String::from("Z"), String::from("2-Z")),
        ]
    );
}

#[test]
fn rank_with_two_digit_ranks() {
    let names = ["a.a", "a.b", "a.c", "a.d", "a.e", "a.f", "a.g", "a.h", "a.i", "a.j", "a.k", "b.k"];
    let map = get_file_ext_names(&files(&names));
    assert_eq!(map.len(), 11);
    assert_eq!(map.get("A"), Some(String::from("11-A")));
    assert_eq!(map.get("B"), Some(String::from("10-B")));
    assert_eq!(map.get("J"), Some(String::from("2-J")));
    assert_eq!(map.get("K"), Some(String::from("1-K")));
}

#[test]
fn folder_names_follow_the_tokens() {
    let map = rank_tokens(&strings(&["B", "A", "B"]));
    assert_eq!(map.folder_names(), strings(&["2-A", "1-B"]));
}
