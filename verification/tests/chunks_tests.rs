use redlib::chunks::join_until_size_limit;

fn strings(items: &[&str]) -> Vec<String> {
    items.iter().map(|s| s.to_string()).collect()
}

#[test]
fn small_lists_stay_in_one_group() {
    assert_eq!(join_until_size_limit(&strings(&["rust", "linux", "news"])), strings(&["rust+linux+news"]));
}

#[test]
fn an_empty_list_gives_one_empty_group() {
    assert_eq!(join_until_size_limit(&Vec::new()), strings(&[""]));
}

#[test]
fn groups_break_before_passing_four_thousand_bytes() {
    let item = "b".repeat(1000);
    let groups = join_until_size_limit(&vec![item.clone(); 7]);
    assert_eq!(groups.len(), 3);
    assert_eq!(groups[0], vec![item.clone(); 3].join("+"));
    assert_eq!(groups[1], vec![item.clone(); 3].join("+"));
    assert_eq!(groups[2], item);
    assert!(groups.iter().all(|g| g.len() <= 4000));
}

#[test]
fn size_counts_utf8_bytes_not_characters() {
    // 1500 two-byte characters are 3000 bytes.
    let wide = "é".repeat(1500);
    let groups = join_until_size_limit(&vec![wide.clone(), wide.clone()]);
    assert_eq!(groups, vec![wide.clone(), wide]);
}

#[test]
fn an_oversized_first_item_leaves_an_empty_first_group() {
    let big = "c".repeat(4001);
    let groups = join_until_size_limit(&vec![big.clone(), "d".to_string()]);
    assert_eq!(groups, vec![String::new(), big, "d".to_string()]);
}

#[test]
fn empty_items_keep_their_separators() {
    assert_eq!(join_until_size_limit(&strings(&["a", "", "b", ""])), strings(&["a++b+"]));
}
