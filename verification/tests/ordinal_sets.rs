use rupta::sets::{ordinal_set_insert, ordinal_set_list};
use std::collections::BTreeSet;

#[test]
fn ordinal_sets_list_ascending_without_repeats() {
    let mut s = BTreeSet::new();
    for x in [5u32, 1, 3, 1, 5] {
        ordinal_set_insert(&mut s, x);
    }
    assert_eq!(ordinal_set_list(&s), vec![1, 3, 5]);
    assert!(ordinal_set_list(&BTreeSet::new()).is_empty());
}
