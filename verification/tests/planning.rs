use rusty_sorter::plan::join_path;
use rusty_sorter::{
    first_step, get_dirs_recursively, get_files_in_dir, get_os_sep, is_hidden, mass_make_dirs,
    next_step, plan_sorting, sort_files_by_ext, DirItem, FileEntry, SortError, Step,
};

fn entries(dir: &str, names: &[&str]) -> Vec<FileEntry> {
    names.iter().map(|n| FileEntry { parent: dir.to_string(), name: n.to_string() }).collect()
}

fn item(name: &str, path: &str, is_file: bool, is_dir: bool) -> DirItem {
    DirItem { name: name.to_string(), path: path.to_string(), is_file, is_dir }
}

#[test]
fn separator_by_platform() {
    assert_eq!(get_os_sep(true, false), Ok(String::from("\\")));
    assert_eq!(get_os_sep(false, true), Ok(String::from("/")));
    assert_eq!(get_os_sep(true, true), Ok(String::from("\\")));
    assert_eq!(get_os_sep(false, false), Err(SortError::UnsupportedOs));
}

#[test]
fn exit_codes_match_the_table() {
    assert_eq!(SortError::CurrentDir.exit_code(), Some(1));
    assert_eq!(SortError::DirectoryRead.exit_code(), Some(2));
    assert_eq!(SortError::ExtensionDecode.exit_code(), Some(3));
    assert_eq!(SortError::ChangeDir.exit_code(), Some(4));
    assert_eq!(SortError::DirectoryCreate.exit_code(), Some(5));
    assert_eq!(SortError::FileName.exit_code(), Some(6));
    assert_eq!(SortError::PathText.exit_code(), Some(7));
    assert_eq!(SortError::Copy.exit_code(), Some(8));
    assert_eq!(SortError::UnsupportedOs.exit_code(), Some(201));
    assert_eq!(SortError::Delete.exit_code(), None);
    assert!(!SortError::Delete.is_fatal());
    assert!(SortError::Copy.is_fatal());
}

#[test]
fn hidden_names_begin_with_a_dot() {
    assert!(is_hidden(".git"));
    assert!(is_hidden("."));
    assert!(!is_hidden("a.git"));
    assert!(!is_hidden(""));
}

#[test]
fn listing_keeps_regular_files_in_order() {
    let items = vec![
        item("b.txt", "/w/b.txt", true, false),
        item("sub", "/w/sub", false, true),
        item(".hidden", "/w/.hidden", true, false),
        item("a.md", "/w/a.md", true, false),
        item("socket", "/w/socket", false, false),
    ];
    let got = get_files_in_dir("/w", &items, false);
    let names: Vec<(String, String)> =
        got.iter().map(|f| (f.parent.clone(), f.name.clone())).collect();
    assert_eq!(
        names,
        vec![
            (String::from("/w"), String::from("b.txt")),
            (String::from("/w"), String::from("a.md")),
        ]
    );
    let all = get_files_in_dir("/w", &items, true);
    let all_names: Vec<String> = all.iter().map(|f| f.name.clone()).collect();
    assert_eq!(all_names, vec!["b.txt", ".hidden", "a.md"]);
}

#[test]
fn walk_keeps_directories_in_order() {
    let below = vec![
        item("a.txt", "/w/a.txt", true, false),
        item(".git", "/w/.git", false, true),
        item("objects", "/w/.git/objects", false, true),
        item("src", "/w/src", false, true),
    ];
    assert_eq!(get_dirs_recursively("/w", &below, false), vec!["/w", "/w/.git/objects", "/w/src"]);
    assert_eq!(
        get_dirs_recursively("/w", &below, true),
        vec!["/w", "/w/.git", "/w/.git/objects", "/w/src"]
    );
}

#[test]
fn walk_of_a_lone_root_gives_the_root() {
    assert_eq!(get_dirs_recursively("/w", &Vec::new(), true), vec!["/w"]);
    assert_eq!(get_dirs_recursively("/w", &Vec::new(), false), vec!["/w"]);
}

#[test]
fn walk_keeps_a_hidden_root() {
    let below = vec![
        item("nvim", "/home/u/.config/nvim", false, true),
        item(".cache", "/home/u/.config/.cache", false, true),
        item("init.lua", "/home/u/.config/nvim/init.lua", true, false),
    ];
    assert_eq!(
        get_dirs_recursively("/home/u/.config", &below, false),
        vec!["/home/u/.config", "/home/u/.config/nvim"]
    );
    assert_eq!(get_dirs_recursively(".", &Vec::new(), false), vec!["."]);
    assert_eq!(get_dirs_recursively(".hidden", &Vec::new(), false), vec![".hidden"]);
    let listed = get_dirs_recursively("/home/u/.config", &below, true);
    assert_eq!(listed.iter().filter(|d| d.as_str() == "/home/u/.config").count(), 1);
    assert_eq!(listed.len(), 3);
}

#[test]
fn join_path_puts_the_separator_between() {
    assert_eq!(join_path("/w", "/", "a.txt"), "/w/a.txt");
    assert_eq!(join_path("C:\\w", "\\", "1-TXT"), "C:\\w\\1-TXT");
}

#[test]
fn folder_paths_lie_in_the_directory() {
    let names = vec![String::from("2-MD"), String::from("1-TXT")];
    assert_eq!(mass_make_dirs("/w", "/", &names), vec!["/w/2-MD", "/w/1-TXT"]);
    assert_eq!(mass_make_dirs("/w", "/", &Vec::new()), Vec::<String>::new());
}

#[test]
fn plan_scenario_txt_and_md() {
    let files = entries("/w", &["a.TXT", "b.txt", "c.md"]);
    let plan = sort_files_by_ext("/w", "/", &files);
    assert!(!plan.is_idle());
    assert_eq!(plan.folders, vec!["/w/2-MD", "/w/1-TXT"]);
    assert_eq!(plan.destinations, vec!["/w/1-TXT/a.TXT", "/w/1-TXT/b.txt", "/w/2-MD/c.md"]);
    assert_eq!(plan.names.len(), 2);
}

#[test]
fn plan_for_single_file_is_idle() {
    let plan = sort_files_by_ext("/w", "/", &entries("/w", &["x.log"]));
    assert!(plan.is_idle());
    assert!(plan.folders.is_empty());
    assert!(plan.destinations.is_empty());
    assert_eq!(first_step(plan.folders.len(), 1), Step::Done);
}

#[test]
fn plan_for_empty_directory_is_idle() {
    let plan = sort_files_by_ext("/w", "/", &Vec::new());
    assert!(plan.is_idle());
    assert_eq!(first_step(0, 0), Step::Done);
}

#[test]
fn plan_has_one_folder_per_token_and_one_destination_per_file() {
    let files = entries("/w", &["a.c", "b.h", "c.c", "Makefile", "d.o", "e.o", "f.o"]);
    let plan = sort_files_by_ext("/w", "/", &files);
    assert_eq!(plan.folders.len(), 4);
    assert_eq!(plan.destinations.len(), files.len());
    for (file, destination) in files.iter().zip(plan.destinations.iter()) {
        let under: Vec<&String> = plan
            .folders
            .iter()
            .filter(|f| **destination == format!("{}/{}", f, file.name))
            .collect();
        assert_eq!(under.len(), 1);
    }
    assert_eq!(plan.destinations[3], "/w/4-ELSE/Makefile");
    assert_eq!(plan.destinations[0], "/w/2-C/a.c");
    assert_eq!(plan.destinations[1], "/w/3-H/b.h");
    assert_eq!(plan.destinations[4], "/w/1-O/d.o");
}

#[test]
fn steps_of_a_run_that_goes_well() {
    let mut step = first_step(2, 2);
    let mut seen = vec![step];
    while step != Step::Done {
        let (next, report) = next_step(2, 2, step, true);
        assert_eq!(report, None);
        step = next;
        seen.push(step);
    }
    assert_eq!(
        seen,
        vec![
            Step::CreateFolder(0),
            Step::CreateFolder(1),
            Step::CopyFile(0),
            Step::DeleteFile(0),
            Step::CopyFile(1),
            Step::DeleteFile(1),
            Step::Done,
        ]
    );
}

#[test]
fn failed_delete_is_reported_and_the_run_goes_on() {
    assert_eq!(
        next_step(2, 3, Step::DeleteFile(0), false),
        (Step::CopyFile(1), Some(SortError::Delete))
    );
    assert_eq!(next_step(2, 3, Step::DeleteFile(2), false), (Step::Done, Some(SortError::Delete)));
    assert_eq!(next_step(2, 3, Step::DeleteFile(0), true), (Step::CopyFile(1), None));
}

#[test]
fn failed_copy_ends_the_run() {
    assert_eq!(
        next_step(2, 3, Step::CopyFile(1), false),
        (Step::Abort(SortError::Copy), Some(SortError::Copy))
    );
    assert_eq!(next_step(2, 3, Step::CopyFile(1), true), (Step::DeleteFile(1), None));
}

#[test]
fn failed_folder_creation_ends_the_run() {
    assert_eq!(
        next_step(2, 3, Step::CreateFolder(0), false),
        (Step::Abort(SortError::DirectoryCreate), Some(SortError::DirectoryCreate))
    );
    assert_eq!(next_step(2, 0, Step::CreateFolder(1), true), (Step::Done, None));
    assert_eq!(next_step(2, 3, Step::CreateFolder(usize::MAX), true), (Step::CopyFile(0), None));
}

#[test]
fn finished_runs_stay_finished() {
    assert_eq!(next_step(2, 3, Step::Done, true), (Step::Done, None));
    assert_eq!(
        next_step(2, 3, Step::Abort(SortError::Copy), true),
        (Step::Abort(SortError::Copy), None)
    );
}

#[test]
fn plan_from_given_tokens() {
    let files = entries("/w", &["a.TXT", "b.txt", "c.md"]);
    let tokens = vec![String::from("TXT"), String::from("TXT"), String::from("MD")];
    let plan = plan_sorting("/w", "/", &files, &tokens);
    assert_eq!(plan.folders, vec!["/w/2-MD", "/w/1-TXT"]);
    assert_eq!(plan.destinations, vec!["/w/1-TXT/a.TXT", "/w/1-TXT/b.txt", "/w/2-MD/c.md"]);
    assert!(!plan.is_idle());
}

#[test]
fn plan_from_equal_tokens_is_idle() {
    let files = entries("/w", &["a.log", "b.log"]);
    let tokens = vec![String::from("LOG"), String::from("LOG")];
    let plan = plan_sorting("/w", "/", &files, &tokens);
    assert!(plan.is_idle());
    assert!(plan.names.is_empty());
    assert!(plan.folders.is_empty());
    assert!(plan.destinations.is_empty());
}

#[test]
fn plan_agrees_with_plan_from_classified_tokens() {
    let files = entries("/w", &["x.rs", "y.rs", "z.toml", "README"]);
    let tokens = vec![
        String::from("RS"),
        String::from("RS"),
        String::from("TOML"),
        String::from("ELSE"),
    ];
    let one = sort_files_by_ext("/w", "/", &files);
    let two = plan_sorting("/w", "/", &files, &tokens);
    assert_eq!(one.folders, two.folders);
    assert_eq!(one.destinations, two.destinations);
    assert_eq!(one.folders, vec!["/w/3-ELSE", "/w/1-RS", "/w/2-TOML"]);
}
