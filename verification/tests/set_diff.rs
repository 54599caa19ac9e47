use evm_tools::set_diff::{diff, it_diff};

#[test]
fn test_diff() {
    let empty: Vec<&str> = Vec::new();
    assert_eq!(
        diff(&["a", "b", "c"], &["a", "b", "c"]),
        (vec![&"a", &"b", &"c"], vec![], vec![])
    );
    assert_eq!(
        diff(&["a", "b"], &["b", "c"]),
        (vec![&"b"], vec![&"a"], vec![&"c"])
    );
    assert_eq!(diff(&["a"], &empty), (vec![], vec![&"a"], vec![]));
    assert_eq!(diff(&empty, &["b"]), (vec![], vec![], vec![&"b"]));
}

#[test]
fn main_test_diff() {
    let empty: Vec<&str> = Vec::new();
    assert_eq!(
        it_diff(&["a", "b", "c"], &["a", "b", "c"]),
        vec![(&"a", true, true), (&"b", true, true), (&"c", true, true)]
    );
    assert_eq!(
        it_diff(&["a", "b"], &["b", "c"]),
        vec![(&"a", true, false), (&"b", true, true), (&"c", false, true)]
    );
    assert_eq!(it_diff(&["a"], &empty), vec![(&"a", true, false)]);
    assert_eq!(it_diff(&empty, &["b"]), vec![(&"b", false, true)]);
}

#[test]
fn diff_sorts_unsorted_input() {
    assert_eq!(
        diff(&["c", "a", "b"], &["b", "d", "a"]),
        (vec![&"a", &"b"], vec![&"c"], vec![&"d"])
    );
}

#[test]
fn diff_counts_repeated_names() {
    assert_eq!(
        diff(&["x", "x", "y"], &["x"]),
        (vec![&"x"], vec![&"x", &"y"], vec![])
    );
    assert_eq!(
        it_diff(&["x", "x", "x"], &["x"]),
        vec![(&"x", true, true), (&"x", true, false), (&"x", true, false)]
    );
}

#[test]
fn diff_orders_by_bytes() {
    assert_eq!(
        diff(&["b", "B", "ab", "a"], &[]),
        (vec![], vec![&"B", &"a", &"ab", &"b"], vec![])
    );
}

#[test]
fn diff_swapped_lists_swap_sides() {
    let first = ["p", "q", "r"];
    let second = ["q", "s"];
    let (both, ones, twos) = diff(&first, &second);
    let (both2, ones2, twos2) = diff(&second, &first);
    assert_eq!(both, both2);
    assert_eq!(ones, twos2);
    assert_eq!(twos, ones2);
}

#[test]
fn diff_of_a_list_with_itself() {
    let items = ["k", "j", "k"];
    assert_eq!(diff(&items, &items), (vec![&"j", &"k", &"k"], vec![], vec![]));
}

#[test]
fn diff_on_strings() {
    let first = vec![String::from("t2"), String::from("t1")];
    let second = vec![String::from("t1")];
    let (both, ones, twos) = diff(&first, &second);
    assert_eq!(both, vec![&String::from("t1")]);
    assert_eq!(ones, vec![&String::from("t2")]);
    assert!(twos.is_empty());
}

#[test]
fn swapping_the_lists_swaps_the_flags() {
    let a = ["d", "a", "b", "b"];
    let b = ["b", "c", "a", "e"];
    let ab = it_diff(&a, &b);
    let ba = it_diff(&b, &a);
    let swapped: Vec<(&str, bool, bool)> = ba.iter().map(|(t, x, y)| (**t, *y, *x)).collect();
    let plain: Vec<(&str, bool, bool)> = ab.iter().map(|(t, x, y)| (**t, *x, *y)).collect();
    assert_eq!(plain, swapped);
    assert_eq!(
        plain,
        vec![("a", true, true), ("b", true, true), ("b", true, false), ("c", false, true), ("d", true, false), ("e", false, true)]
    );
}
