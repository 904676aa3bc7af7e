use std::rc::Rc;

use alv::class::Class;

fn s(x: &str) -> String {
    x.to_string()
}

#[test]
fn own_methods_are_found() {
    let c: Class<i32> = Class::new("A", vec![(s("f"), 1), (s("g"), 2)], None);
    assert_eq!(c.find_method(&s("f")), Some(&1));
    assert_eq!(c.find_method(&s("g")), Some(&2));
    assert_eq!(c.find_method(&s("h")), None);
    assert_eq!(c.to_string(), "A");
}

#[test]
fn later_method_of_the_same_name_counts() {
    let c: Class<i32> = Class::new("A", vec![(s("f"), 1), (s("f"), 3)], None);
    assert_eq!(c.find_method(&s("f")), Some(&3));
}

#[test]
fn methods_are_inherited_and_overridden() {
    let base: Rc<Class<i32>> = Rc::new(Class::new("Base", vec![(s("f"), 1), (s("g"), 2)], None));
    let mid: Rc<Class<i32>> = Rc::new(Class::new("Mid", vec![(s("g"), 20)], Some(Rc::clone(&base))));
    let leaf: Class<i32> = Class::new("Leaf", vec![], Some(Rc::clone(&mid)));
    assert_eq!(leaf.find_method(&s("f")), Some(&1));
    assert_eq!(leaf.find_method(&s("g")), Some(&20));
    assert_eq!(leaf.find_method(&s("x")), None);
    assert_eq!(base.find_method(&s("g")), Some(&2));
}
