use chat_recall::keys::{partition_key, record_name_index};

#[test]
fn separators_are_escaped() {
    assert_eq!(partition_key("a/b"), "c_a%2Fb");
    assert_eq!(partition_key("a_b"), "c_a_b");
    assert_eq!(partition_key("x\\y%"), "c_x%5Cy%25");
    assert_eq!(partition_key("plain"), "c_plain");
}

#[test]
fn distinct_names_get_distinct_partitions() {
    assert_ne!(partition_key("a/b"), partition_key("a_b"));
    assert_ne!(partition_key("a/b"), partition_key("a%2Fb"));
}

#[test]
fn special_names_are_safe() {
    assert_eq!(partition_key(""), "c_");
    assert_eq!(partition_key("."), "c_.");
    assert_eq!(partition_key(".."), "c_..");
}

#[test]
fn record_names_carry_indices() {
    assert_eq!(record_name_index("5.json"), Some(5));
    assert_eq!(record_name_index("120.json"), Some(120));
    assert_eq!(record_name_index("+7.json"), Some(7));
    assert_eq!(record_name_index("007.json"), Some(7));
}

#[test]
fn other_names_carry_none() {
    assert_eq!(record_name_index("x.json"), None);
    assert_eq!(record_name_index(".json"), None);
    assert_eq!(record_name_index("+.json"), None);
    assert_eq!(record_name_index("-1.json"), None);
    assert_eq!(record_name_index("12"), None);
    assert_eq!(record_name_index("12.txt"), None);
    assert_eq!(record_name_index("1 2.json"), None);
}

#[test]
fn oversized_index_is_refused() {
    let max = format!("{}.json", usize::MAX);
    assert_eq!(record_name_index(&max), Some(usize::MAX));
    let over = format!("{}0.json", usize::MAX);
    assert_eq!(record_name_index(&over), None);
}
