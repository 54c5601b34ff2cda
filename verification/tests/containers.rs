use generalized_map::attribute::{AttributeContainer, MergeFn, SplitFn, onmerge_default, onsplit_default, onmerge_default_boxed, onsplit_default_boxed};
use generalized_map::index::AttributeIndex;

fn a(i: usize) -> AttributeIndex {
    AttributeIndex(i)
}

#[test]
fn default_merge_and_split() {
    assert_eq!(onmerge_default(3, 4), 3);
    assert_eq!(onsplit_default(String::from("x")), (String::from("x"), String::from("x")));
}

#[test]
fn set_and_get_data() {
    let mut c = AttributeContainer::<i32, _, _>::new(onmerge_default_boxed::<i32>(), onsplit_default_boxed::<i32>());
    assert_eq!(c.len(), 0);
    assert!(c.set_data(a(1), 5));
    assert!(c.set_data(a(1), 7));
    assert_eq!(c.get_data(&a(1)), Some(&7));
    assert!(c.has_data(&a(1)));
    // true whenever the container holds something
    assert!(c.has_data(&a(2)));
    assert!(!c.set_data(AttributeIndex::null(), 1));
    assert_eq!(c.get_data(&AttributeIndex::null()), None);
    assert_eq!(c.len(), 1);
    assert!(c.remove_data(a(1)));
    assert!(!c.remove_data(a(1)));
    assert_eq!(c.len(), 0);
    assert!(!c.has_data(&a(1)));
}

#[test]
fn merge_then_split_data() {
    let mut c = AttributeContainer::<i32, _, _>::new(onmerge_default_boxed::<i32>(), onsplit_default_boxed::<i32>());
    c.set_data(a(1), 5);
    c.set_data(a(2), 9);
    assert!(c.merge_data((a(1), a(2)), a(3)));
    assert_eq!(c.get_data(&a(3)), Some(&5));
    assert_eq!(c.get_data(&a(1)), None);
    assert_eq!(c.get_data(&a(2)), None);
    assert!(c.split_data(a(3), (a(4), a(5))));
    assert_eq!(c.get_data(&a(4)), Some(&5));
    assert_eq!(c.get_data(&a(5)), Some(&5));
    assert_eq!(c.get_data(&a(3)), None);
    assert!(!c.merge_data((a(7), a(8)), a(9)));
}

#[test]
fn merge_keeps_the_one_that_exists() {
    let mut c = AttributeContainer::<i32, _, _>::new(onmerge_default_boxed::<i32>(), onsplit_default_boxed::<i32>());
    c.set_data(a(2), 9);
    assert!(c.merge_data((a(1), a(2)), a(3)));
    assert_eq!(c.get_data(&a(3)), Some(&9));
}

#[test]
fn copy_data_between_containers() {
    let mut c = AttributeContainer::<i32, _, _>::new(onmerge_default_boxed::<i32>(), onsplit_default_boxed::<i32>());
    let mut o = AttributeContainer::<i32, _, _>::new(onmerge_default_boxed::<i32>(), onsplit_default_boxed::<i32>());
    o.set_data(a(4), 11);
    assert!(c.copy_data_from(a(1), &o, &a(4)));
    assert_eq!(c.get_data(&a(1)), Some(&11));
    assert!(!c.copy_data_from(a(2), &o, &a(5)));
}

struct Digits;

impl MergeFn<i32> for Digits {
    fn merge(&self, data0: i32, data1: i32) -> i32 {
        data0 * 10 + data1
    }
}

struct Successor;

impl SplitFn<i32> for Successor {
    fn split(&self, data: i32) -> (i32, i32) {
        (data, data + 1)
    }
}

#[test]
fn merge_applies_the_container_operation_once() {
    let mut c = AttributeContainer::<i32, _, _>::new(Box::new(Digits), onsplit_default_boxed::<i32>());
    c.set_data(a(0), 1);
    c.set_data(a(1), 2);
    assert!(c.merge_data((a(0), a(1)), a(5)));
    assert_eq!(c.get_data(&a(5)), Some(&12));
    assert_eq!(c.get_data(&a(0)), None);
    assert_eq!(c.get_data(&a(1)), None);
    assert_eq!(c.len(), 1);
}

#[test]
fn split_applies_the_container_operation() {
    let mut c = AttributeContainer::<i32, _, _>::new(onmerge_default_boxed::<i32>(), Box::new(Successor));
    c.set_data(a(5), 7);
    assert!(!c.split_data(a(5), (AttributeIndex::null(), a(9))));
    assert_eq!(c.get_data(&a(5)), Some(&7));
    assert!(c.split_data(a(5), (a(6), a(8))));
    assert_eq!(c.get_data(&a(6)), Some(&7));
    assert_eq!(c.get_data(&a(8)), Some(&8));
    assert_eq!(c.get_data(&a(5)), None);
    assert_eq!(c.len(), 2);
}

#[test]
fn merge_after_split_gives_the_value_back() {
    let mut c = AttributeContainer::<i32, _, _>::new(onmerge_default_boxed::<i32>(), onsplit_default_boxed::<i32>());
    c.set_data(a(3), 4);
    assert!(c.split_data(a(3), (a(1), a(2))));
    assert!(c.merge_data((a(1), a(2)), a(3)));
    assert_eq!(c.get_data(&a(3)), Some(&4));
    assert_eq!(c.len(), 1);
}
