use darts_clone::direct::direct_layout;
use darts_clone::error::{Context, Error, ErrorKind};
use darts_clone::trie::{Datrie, DEAD_END, NO_VALUE};

fn built(keys: &[&str], values: &[i32]) -> Datrie {
    let mut da = Datrie::new();
    da.build(keys, Some(values)).expect("build failed");
    da
}

#[test]
fn test_creation() {
    let da = Datrie::new();
    assert!(da.find("hello", None).is_none());
    assert!(da.is_empty());
}

#[test]
fn test_builder() {
    let mut da = Datrie::new();

    let keys = &["hello", "world", "he", "hell"];
    let values = &[0, 1, 2, 3];
    da.build(keys, Some(values)).expect("build failed");

    for (key, value) in keys.iter().zip(values) {
        assert_eq!(da.find(key, None).unwrap_or(-1), *value);
    }

    da.clear();
    assert!(da.is_empty());
}

#[test]
fn test_common_prefix_search() {
    let mut da = Datrie::new();
    let keys = &["hello", "world", "he", "hell"];
    let values = &[0, 1, 2, 3];
    da.build(keys, Some(values)).expect("build failed");

    let (v, s) = da.common_prefix_search("hello", 2, None);
    assert_eq!(v, vec![2, 3]);
    assert_eq!(s, 3);
}

#[test]
fn test_traverse() {
    let mut da = Datrie::new();
    let keys = &["hello", "world", "he"];
    let values = &[0, 1, 2];
    da.build(keys, Some(values)).expect("build failed");

    let mut key_pos = 0usize;
    let mut node_pos = 0usize;
    let s = da.traverse("hel", &mut node_pos, &mut key_pos);
    assert_eq!(s, -1);
    key_pos = 0;
    let s = da.traverse("l", &mut node_pos, &mut key_pos);
    assert_eq!(s, -1);
    key_pos = 0;
    let s = da.traverse("o", &mut node_pos, &mut key_pos);
    assert!(s >= 0);
}

fn inner_function() -> Result<(), Error> {
    let e = Error { kind: ErrorKind::ValueError("corrupted".to_string()), contexts: vec![] };
    Err(e)
}

fn middle_function() -> Result<(), Error> {
    inner_function().with_context(|| "in middle_function".to_string())
}

#[test]
#[should_panic]
fn test_error_with_context() {
    let status = middle_function()
        .with_context(|| format!("in outer function: {}", "test_error_with_context"));
    status.unwrap();
}

#[test]
fn context_lines_render_outermost_first() {
    let status = middle_function().with_context(|| "outer".to_string());
    let e = status.unwrap_err();
    assert_eq!(e.contexts, vec!["in middle_function".to_string(), "outer".to_string()]);
    assert_eq!(e.collect_contexts(), "\n - outer\n - in middle_function");
    assert!(matches!(e.kind, ErrorKind::ValueError(_)));
    assert_eq!(Error::new(ErrorKind::ValueError("x".to_string())).collect_contexts(), "");
}

#[test]
fn scenario_he_hell_hello_world() {
    let da = built(&["he", "hell", "hello", "world"], &[2, 3, 0, 1]);
    assert_eq!(da.find("hello", None), Some(0));
    assert_eq!(da.find("hel", None), None);
    assert_eq!(da.find("he", None), Some(2));
    assert_eq!(da.find("world", None), Some(1));
    assert_eq!(da.common_prefix_search("hello", 10, None), (vec![2, 3, 0], 3));

    let mut node = 0usize;
    let mut results = Vec::new();
    for b in ["h", "e", "l", "l", "o"] {
        let mut pos = 0usize;
        results.push(da.traverse(b, &mut node, &mut pos));
        assert_eq!(pos, 1);
    }
    assert_eq!(results, vec![NO_VALUE, 2, NO_VALUE, 3, 0]);
}

#[test]
fn exactness_for_keys_and_others() {
    let keys = ["b", "abc", "a", "ab", "zz", "abd"];
    let values = [10, 20, 30, 40, 50, 60];
    let da = built(&keys, &values);
    for (k, v) in keys.iter().zip(values.iter()) {
        assert_eq!(da.find(k, None), Some(*v));
    }
    for k in ["", "x", "abcd", "z", "ba", "abe"] {
        assert_eq!(da.find(k, None), None);
    }
}

#[test]
fn prefix_search_lists_all_prefix_keys_in_order() {
    let da = built(&["a", "abc", "ab", "abcde", "b"], &[1, 3, 2, 5, 9]);
    assert_eq!(da.common_prefix_search("abcdef", usize::MAX, None), (vec![1, 2, 3, 5], 4));
    assert_eq!(da.common_prefix_search("abx", 100, None), (vec![1, 2], 2));
    assert_eq!(da.common_prefix_search("zzz", 100, None), (vec![], 0));
}

#[test]
fn prefix_search_truncates_but_counts_all() {
    let da = built(&["a", "abc", "ab", "abcde"], &[1, 3, 2, 5]);
    assert_eq!(da.common_prefix_search("abcdef", 1, None), (vec![1], 4));
    assert_eq!(da.common_prefix_search("abcdef", 0, None), (vec![], 4));
}

#[test]
fn empty_store_answers_nothing() {
    let mut da = Datrie::new();
    assert_eq!(da.find("", None), None);
    assert_eq!(da.common_prefix_search("abc", 5, None), (vec![], 0));
    let (mut node, mut pos) = (0usize, 0usize);
    assert_eq!(da.traverse("abc", &mut node, &mut pos), DEAD_END);
    assert_eq!((node, pos), (0, 0));
    assert!(da.get_array().is_none());
    da.build(&["k"], Some(&[4])).unwrap();
    da.clear();
    assert_eq!(da.find("k", None), None);
    assert_eq!(da.size(), 0);
}

#[test]
fn build_rejects_empty_input() {
    let mut da = Datrie::new();
    let err = da.build(&[], None).unwrap_err();
    assert!(matches!(err.kind, ErrorKind::ValueError(_)));
}

#[test]
fn build_rejects_length_mismatch_and_keeps_old_trie() {
    let mut da = built(&["x"], &[7]);
    let err = da.build(&["a", "b"], Some(&[1])).unwrap_err();
    assert!(matches!(err.kind, ErrorKind::ValueError(_)));
    assert_eq!(da.find("x", None), Some(7));
}

#[test]
fn build_rejects_negative_values() {
    let mut da = built(&["x"], &[7]);
    let err = da.build(&["a", "b"], Some(&[1, -1])).unwrap_err();
    assert!(matches!(err.kind, ErrorKind::UnknownError(_)));
    assert_eq!(da.find("x", None), Some(7));
}

#[test]
fn build_without_values_uses_sorted_positions() {
    let mut da = Datrie::new();
    da.build(&["world", "hello", "he"], None).unwrap();
    assert_eq!(da.find("he", None), Some(0));
    assert_eq!(da.find("hello", None), Some(1));
    assert_eq!(da.find("world", None), Some(2));
    assert_eq!(da.find("hell", None), None);
}

#[test]
fn duplicate_key_keeps_last_value() {
    let da = built(&["k", "j", "k"], &[1, 2, 3]);
    assert_eq!(da.find("k", None), Some(3));
    assert_eq!(da.find("j", None), Some(2));
}

#[test]
fn empty_key_is_stored_at_the_root() {
    let da = built(&["", "a"], &[5, 6]);
    assert_eq!(da.find("", None), Some(5));
    assert_eq!(da.find("a", None), Some(6));
    assert_eq!(da.common_prefix_search("a", 10, None), (vec![5, 6], 2));
    assert_eq!(da.common_prefix_search("a", 1, None), (vec![5], 2));
    assert_eq!(da.common_prefix_search("", 10, None), (vec![5], 1));
    assert_eq!(da.common_prefix_search("b", 10, None), (vec![5], 1));
}

#[test]
fn largest_value_is_kept() {
    let da = built(&["max", "zero"], &[i32::MAX, 0]);
    assert_eq!(da.find("max", None), Some(i32::MAX));
    assert_eq!(da.find("zero", None), Some(0));
}

#[test]
fn find_from_an_inner_node() {
    let da = built(&["abc", "abd", "x"], &[1, 2, 3]);
    let (mut node, mut pos) = (0usize, 0usize);
    assert_eq!(da.traverse("ab", &mut node, &mut pos), NO_VALUE);
    assert_eq!(pos, 2);
    assert_eq!(da.find("c", Some(node)), Some(1));
    assert_eq!(da.find("d", Some(node)), Some(2));
    assert_eq!(da.find("x", Some(node)), None);
    assert_eq!(da.common_prefix_search("d", 3, Some(node)), (vec![2], 1));
    assert_eq!(da.find("abc", Some(da.size())), None);
}

#[test]
fn traverse_stops_at_dead_end() {
    let da = built(&["abc"], &[1]);
    let (mut node, mut pos) = (0usize, 0usize);
    assert_eq!(da.traverse("abx", &mut node, &mut pos), DEAD_END);
    assert_eq!(pos, 2);
    let mut pos2 = 2usize;
    assert_eq!(da.traverse("abc", &mut node, &mut pos2), 1);
    assert_eq!(pos2, 3);
    let (mut bad, mut p) = (da.size() + 3, 0usize);
    assert_eq!(da.traverse("a", &mut bad, &mut p), DEAD_END);
}

#[test]
fn dump_then_load_answers_the_same() {
    let keys = ["he", "hell", "hello", "world", "w"];
    let da = built(&keys, &[2, 3, 0, 1, 9]);
    let bytes = da.dump_bytes();
    assert_eq!(bytes.len(), da.total_size());
    assert_eq!(da.unit_size(), 4);
    assert_eq!(da.total_size(), da.size() * 4);
    assert_eq!(da.get_array().unwrap().len(), da.size());
    let mut other = Datrie::new();
    other.load_bytes(&bytes).unwrap();
    assert_eq!(other.size(), da.size());
    for k in keys.iter().chain(["", "x", "hel"].iter()) {
        assert_eq!(other.find(k, None), da.find(k, None));
        assert_eq!(other.common_prefix_search(k, 10, None), da.common_prefix_search(k, 10, None));
    }
}

#[test]
fn dump_writes_words_least_significant_byte_first() {
    let mut da = Datrie::new();
    da.set_array(vec![0x0403_0201, 0x0807_0605, 0xff]);
    assert_eq!(da.size(), 3);
    assert_eq!(da.get_array(), Some(&vec![0x0403_0201, 0x0807_0605, 0xff]));
    assert_eq!(da.dump_bytes(), vec![1, 2, 3, 4, 5, 6, 7, 8, 0xff, 0, 0, 0]);
    let mut other = Datrie::new();
    other.load_bytes(&[1, 2, 3, 4, 5, 6, 7, 8]).unwrap();
    assert_eq!(other.size(), 2);
    assert_eq!(other.get_array(), Some(&vec![0x0403_0201, 0x0807_0605]));
}

#[test]
fn load_rejects_partial_units() {
    let mut da = built(&["a"], &[1]);
    let err = da.load_bytes(&[0, 0, 0, 0, 0, 0]).unwrap_err();
    assert!(matches!(err.kind, ErrorKind::CorruptedDataError(_)));
    assert_eq!(da.find("a", None), Some(1));
    da.load_bytes(&[]).unwrap();
    assert!(da.is_empty());
    assert_eq!(da.get_array(), Some(&vec![]));
}

#[test]
fn raw_array_round_trips_through_set_array() {
    let da = built(&["ab", "b"], &[1, 2]);
    let words = da.get_array().unwrap().clone();
    let mut other = Datrie::new();
    other.set_array(words);
    assert_eq!(other.find("ab", None), Some(1));
    assert_eq!(other.find("b", None), Some(2));
}

#[test]
fn many_keys_build_and_find() {
    let keys: Vec<String> = (0..500).map(|i| format!("key{}x{}", i * 7919 % 1000, i)).collect();
    let refs: Vec<&str> = keys.iter().map(|s| s.as_str()).collect();
    let values: Vec<i32> = (0..500).collect();
    let da = built(&refs, &values);
    for (k, v) in refs.iter().zip(values.iter()) {
        assert_eq!(da.find(k, None), Some(*v));
    }
    assert_eq!(da.find("key", None), None);
}

#[test]
fn get_array_follows_the_last_change() {
    let mut da = Datrie::new();
    assert!(da.get_array().is_none());
    da.set_array(vec![]);
    assert_eq!(da.get_array(), Some(&vec![]));
    da.build(&["a"], Some(&[1])).unwrap();
    assert_eq!(da.get_array().unwrap().len(), da.size());
    assert!(da.size() > 0);
    da.clear();
    assert!(da.get_array().is_none());
}

#[test]
fn with_context_keeps_ok_and_does_not_call() {
    let ok: Result<i32, Error> = Ok(5);
    let r = ok.with_context(|| panic!("must not be called"));
    assert_eq!(r.unwrap(), 5);
}

#[test]
fn direct_layout_stores_the_keys() {
    let keys = ["he", "hell", "hello", "world", "he", ""];
    let vals = vec![2, 3, 0, 1, 7, 9];
    let words = direct_layout(&keys, &vals).unwrap();
    let mut da = Datrie::new();
    da.set_array(words);
    assert_eq!(da.find("he", None), Some(7));
    assert_eq!(da.find("hell", None), Some(3));
    assert_eq!(da.find("hello", None), Some(0));
    assert_eq!(da.find("world", None), Some(1));
    assert_eq!(da.find("", None), Some(9));
    assert_eq!(da.find("hel", None), None);
    assert_eq!(da.find("x", None), None);
    assert_eq!(da.common_prefix_search("hello", 10, None), (vec![9, 7, 3, 0], 4));
    let (mut node, mut pos) = (0usize, 0usize);
    assert_eq!(da.traverse("wx", &mut node, &mut pos), DEAD_END);
    assert_eq!(pos, 1);
}
