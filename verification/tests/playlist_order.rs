use rs_player::playlist::{
    add_files, addable_prefix_len, compare_names, is_mp3_path, NameOrder, PlayListItem,
};

fn item(name: &str) -> PlayListItem {
    PlayListItem::new(name.to_string(), format!("/music/{}", name))
}

fn names(list: &[PlayListItem]) -> Vec<String> {
    list.iter().map(|i| i.file_name.clone()).collect()
}

#[test]
fn names_compare_by_bytes() {
    let s = |x: &str| x.to_string();
    assert_eq!(compare_names(&s("a"), &s("b")), NameOrder::Before);
    assert_eq!(compare_names(&s("b"), &s("a")), NameOrder::After);
    assert_eq!(compare_names(&s("ab"), &s("b")), NameOrder::Before);
    assert_eq!(compare_names(&s("a"), &s("ab")), NameOrder::Before);
    assert_eq!(compare_names(&s("same"), &s("same")), NameOrder::Same);
    assert_eq!(compare_names(&s(""), &s("x")), NameOrder::Before);
    // upper case sorts before lower case, and ASCII before other letters
    assert_eq!(compare_names(&s("Z"), &s("a")), NameOrder::Before);
    assert_eq!(compare_names(&s("z"), &s("é")), NameOrder::Before);
}

#[test]
fn new_entry_is_idle_with_placeholder_tag() {
    let it = item("a.mp3");
    assert_eq!(it.file_name, "a.mp3");
    assert_eq!(it.file_path, "/music/a.mp3");
    assert!(!it.playing);
    assert_eq!(it.id3v1.title, "Untitled");
}

#[test]
fn default_entry_is_empty() {
    let it = PlayListItem::default();
    assert_eq!(it.file_name, "");
    assert_eq!(it.file_path, "");
    assert!(!it.playing);
    assert_eq!(it.id3v1.artist, "Unknown");
}

#[test]
fn entries_compare_by_name_only() {
    let a = item("a.mp3");
    let mut b = PlayListItem::new("a.mp3".to_string(), "/elsewhere/a.mp3".to_string());
    b.playing = true;
    assert!(a == b);
    let c = item("c.mp3");
    assert!(a < c);
    assert!(c > b);
    assert_eq!(a.partial_cmp(&c), Some(std::cmp::Ordering::Less));
    assert_eq!(c.partial_cmp(&a), Some(std::cmp::Ordering::Greater));
    assert_eq!(a.partial_cmp(&b), Some(std::cmp::Ordering::Equal));
}

#[test]
fn added_files_are_sorted() {
    let mut list = Vec::new();
    add_files(&mut list, vec![item("c.mp3"), item("a.mp3"), item("b.mp3")]);
    assert_eq!(names(&list), vec!["a.mp3", "b.mp3", "c.mp3"]);
}

#[test]
fn repeated_names_are_dropped() {
    let mut list = Vec::new();
    add_files(&mut list, vec![item("b.mp3"), item("a.mp3"), item("b.mp3"), item("a.mp3")]);
    assert_eq!(names(&list), vec!["a.mp3", "b.mp3"]);
}

#[test]
fn first_entry_of_a_name_is_kept() {
    let mut list = Vec::new();
    let mut first = item("b.mp3");
    first.file_path = "/first/b.mp3".to_string();
    add_files(&mut list, vec![first, item("b.mp3")]);
    assert_eq!(list.len(), 1);
    assert_eq!(list[0].file_path, "/first/b.mp3");
}

#[test]
fn existing_entries_keep_their_state() {
    let mut list = Vec::new();
    add_files(&mut list, vec![item("m.mp3"), item("a.mp3")]);
    list[1].playing = true;
    add_files(&mut list, vec![item("m.mp3"), item("z.mp3"), item("b.mp3")]);
    assert_eq!(names(&list), vec!["a.mp3", "b.mp3", "m.mp3", "z.mp3"]);
    assert!(list[2].playing);
    assert_eq!(list.iter().filter(|i| i.playing).count(), 1);
}

#[test]
fn adding_the_same_files_twice_changes_nothing() {
    let mut list = Vec::new();
    add_files(&mut list, vec![item("x.mp3"), item("y.mp3")]);
    list[0].playing = true;
    let before = names(&list);
    add_files(&mut list, vec![item("y.mp3"), item("x.mp3")]);
    assert_eq!(names(&list), before);
    assert!(list[0].playing);
}

#[test]
fn an_unsorted_list_is_put_in_order() {
    let mut list = vec![item("q.mp3"), item("p.mp3"), item("q.mp3")];
    list[2].playing = true;
    add_files(&mut list, vec![]);
    assert_eq!(names(&list), vec!["p.mp3", "q.mp3"]);
    assert!(!list[1].playing);
}

#[test]
fn adding_nothing_to_nothing() {
    let mut list: Vec<PlayListItem> = Vec::new();
    add_files(&mut list, Vec::new());
    assert!(list.is_empty());
}

#[test]
fn mp3_paths_are_recognised() {
    assert!(is_mp3_path("song.mp3"));
    assert!(is_mp3_path("/a/b/c.mp3"));
    assert!(is_mp3_path(".mp3"));
    assert!(!is_mp3_path("song.MP3"));
    assert!(!is_mp3_path("song.mp3.txt"));
    assert!(!is_mp3_path("mp3"));
    assert!(!is_mp3_path(""));
    assert!(is_mp3_path("ünïcödé.mp3"));
}

#[test]
fn selection_stops_at_the_first_unfit_path() {
    let paths: Vec<String> = ["a.mp3", "b.mp3", "c.txt", "d.mp3"].iter().map(|s| s.to_string()).collect();
    assert_eq!(addable_prefix_len(&paths, &vec![true, true, true, true]), 2);
    assert_eq!(addable_prefix_len(&paths, &vec![true, false, true, true]), 1);
    assert_eq!(addable_prefix_len(&paths, &vec![false, true, true, true]), 0);
    let all: Vec<String> = ["a.mp3", "b.mp3"].iter().map(|s| s.to_string()).collect();
    assert_eq!(addable_prefix_len(&all, &vec![true, true]), 2);
    assert_eq!(addable_prefix_len(&Vec::new(), &Vec::new()), 0);
}

#[test]
fn entries_print_as_test() {
    assert_eq!(item("a.mp3").debug_text(), "Test");
    assert_eq!(PlayListItem::default().debug_text(), "Test");
}
