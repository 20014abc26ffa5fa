use marbles::command::{Command, Outcome};
use marbles::file_format::{decode_lines, split_lines};
use marbles::item_list::ItemList;
use marbles::order::item_less;

fn list_of(items: &[&str]) -> ItemList {
    ItemList::from_items(items.iter().map(|s| s.to_string()).collect())
}

fn names(list: &ItemList) -> Vec<String> {
    list.items()
}

#[test]
fn add_same_item_twice_keeps_one() {
    let mut list = ItemList::new();
    assert!(list.add("cat".to_string()));
    assert!(!list.add("cat".to_string()));
    assert_eq!(names(&list), vec!["cat".to_string()]);
    assert_eq!(list.len(), 1);
}

#[test]
fn save_then_load_gives_same_items() {
    let list = list_of(&["pear", "apple", "zebra crossing", "émigré", "日本"]);
    let bytes = list.to_bytes();
    let back = ItemList::load(&bytes);
    assert_eq!(names(&back), names(&list));
}

#[test]
fn save_writes_one_sorted_line_per_item() {
    let list = list_of(&["b", "a", "c"]);
    assert_eq!(list.to_bytes(), b"a\nb\nc\n".to_vec());
    assert_eq!(ItemList::new().to_bytes(), Vec::<u8>::new());
}

#[test]
fn load_reads_lines_like_bufread() {
    let list = ItemList::load(b"dog\r\ncat\n\nfish\ncat\nlast");
    assert_eq!(
        names(&list),
        vec!["", "cat", "dog", "fish", "last"]
            .into_iter()
            .map(String::from)
            .collect::<Vec<_>>()
    );
}

#[test]
fn load_of_empty_file_is_empty() {
    assert!(ItemList::load(b"").is_empty());
}

#[test]
fn load_skips_lines_that_are_not_utf8() {
    let list = ItemList::load(b"ok\n\xff\xfe\nh\xc3\xa9\n");
    assert_eq!(names(&list), vec!["h\u{e9}".to_string(), "ok".to_string()]);
}

#[test]
fn split_lines_keeps_cr_on_unterminated_last_line() {
    let lines = split_lines(b"a\r\nb\r");
    assert_eq!(lines, vec![b"a".to_vec(), b"b\r".to_vec()]);
    assert_eq!(split_lines(b"x\n"), vec![b"x".to_vec()]);
    assert_eq!(split_lines(b"\n\n"), vec![Vec::new(), Vec::new()]);
}

#[test]
fn decode_lines_decodes_multibyte_text() {
    assert_eq!(
        decode_lines("Füße\nok\n".as_bytes()),
        vec!["Füße".to_string(), "ok".to_string()]
    );
}

#[test]
fn remove_reports_presence() {
    let mut list = list_of(&["a", "b"]);
    assert!(list.remove(&"a".to_string()));
    assert!(!list.contains("a"));
    assert!(!list.remove(&"a".to_string()));
    assert!(!list.remove(&"zzz".to_string()));
    assert_eq!(names(&list), vec!["b".to_string()]);
}

#[test]
fn take_random_removes_exactly_one() {
    let before = list_of(&["one", "two", "three", "four"]);
    let mut list = list_of(&["one", "two", "three", "four"]);
    let drawn = list.take_random().expect("a non-empty list gives an item");
    assert!(before.contains(&drawn));
    assert!(!list.contains(&drawn));
    assert_eq!(list.len(), 3);
    for item in names(&before) {
        if item != drawn {
            assert!(list.contains(&item));
        }
    }
}

#[test]
fn take_random_on_empty_list_gives_nothing() {
    let mut list = ItemList::new();
    assert!(list.take_random().is_none());
    assert!(list.is_empty());
}

#[test]
fn take_random_drains_a_list() {
    let mut list = list_of(&["x", "y", "z"]);
    let mut drawn = Vec::new();
    while let Some(x) = list.take_random() {
        drawn.push(x);
    }
    drawn.sort();
    assert_eq!(drawn, vec!["x".to_string(), "y".to_string(), "z".to_string()]);
}

#[test]
fn take_at_gives_item_in_order() {
    let mut list = list_of(&["c", "a", "b"]);
    assert_eq!(list.take_at(1), "b".to_string());
    assert_eq!(names(&list), vec!["a".to_string(), "c".to_string()]);
}

#[test]
fn add_remove_scenario() {
    let mut list = list_of(&["cat", "dog"]);
    let out = list.execute(Command::Add("fish".to_string()));
    assert!(matches!(out, Outcome::Added { newly_added: true }));
    assert!(out.saves());
    assert_eq!(
        names(&list),
        vec!["cat".to_string(), "dog".to_string(), "fish".to_string()]
    );
    let out = list.execute(Command::Remove("dog".to_string()));
    assert!(matches!(out, Outcome::Removed));
    assert_eq!(names(&list), vec!["cat".to_string(), "fish".to_string()]);
    let out = list.execute(Command::Remove("dog".to_string()));
    assert!(matches!(out, Outcome::NotFound));
    assert!(out.saves());
    assert_eq!(names(&list), vec!["cat".to_string(), "fish".to_string()]);
}

#[test]
fn add_of_present_item_is_reported_as_not_new() {
    let mut list = list_of(&["cat"]);
    let out = list.execute(Command::Add("cat".to_string()));
    assert!(matches!(out, Outcome::Added { newly_added: false }));
    assert_eq!(list.len(), 1);
}

#[test]
fn roll_on_empty_list_reports_no_items() {
    let mut list = ItemList::new();
    let out = list.execute(Command::Roll);
    assert!(matches!(out, Outcome::NoItems));
    assert!(!out.saves());
    assert!(list.is_empty());
}

#[test]
fn roll_draws_and_removes_an_item() {
    let mut list = list_of(&["only"]);
    let out = list.execute(Command::Roll);
    match out {
        Outcome::Rolled(ref x) => assert_eq!(x, "only"),
        _ => panic!("expected a drawn item"),
    }
    assert!(out.saves());
    assert!(list.is_empty());
}

#[test]
fn edit_leaves_list_and_skips_save() {
    let mut list = list_of(&["a"]);
    let out = list.execute(Command::Edit);
    assert!(matches!(out, Outcome::EditRequested));
    assert!(!out.saves());
    assert_eq!(names(&list), vec!["a".to_string()]);
}

#[test]
fn listing_is_sorted_and_numbered() {
    let mut list = list_of(&["b", "a", "c"]);
    let expected = vec![
        (1usize, "a".to_string()),
        (2usize, "b".to_string()),
        (3usize, "c".to_string()),
    ];
    assert_eq!(list.rows(), expected);
    match list.execute(Command::List) {
        Outcome::Listed(rows) => assert_eq!(rows, expected),
        _ => panic!("expected rows"),
    }
}

#[test]
fn order_is_bytewise() {
    assert!(item_less("a", "ab"));
    assert!(!item_less("ab", "a"));
    assert!(item_less("", "a"));
    assert!(!item_less("a", "a"));
    assert!(item_less("Z", "a"));
    assert!(item_less("z", "é"));
    assert!(item_less("ab", "b"));
}
