use lox::environment::Environment;

#[test]
fn lookup_after_define() {
    let mut env: Environment<i32> = Environment::init();
    assert_eq!(env.lookup("a"), None);
    env.define("a", 1);
    assert_eq!(env.lookup("a"), Some(&1));
    env.define("a", 2);
    assert_eq!(env.lookup("a"), Some(&2));
    assert_eq!(env.values.len(), 1);
}

#[test]
fn define_keeps_other_names() {
    let mut env: Environment<i32> = Environment::init();
    env.define("a", 1);
    env.define("b", 2);
    assert_eq!(env.lookup("a"), Some(&1));
    assert_eq!(env.lookup("b"), Some(&2));
}

#[test]
fn assign_only_to_bound_names() {
    let mut env: Environment<i32> = Environment::init();
    assert_eq!(env.assign("a", 1), None);
    assert_eq!(env.lookup("a"), None);
    env.define("a", 1);
    assert_eq!(env.assign("a", 5), Some(()));
    assert_eq!(env.lookup("a"), Some(&5));
}

#[test]
fn inner_scope_reads_outer_and_shadows() {
    let mut outer: Environment<i32> = Environment::init();
    outer.define("a", 1);
    outer.define("b", 2);
    let mut inner = Environment::child(outer);
    assert_eq!(inner.lookup("a"), Some(&1));
    inner.define("a", 10);
    assert_eq!(inner.lookup("a"), Some(&10));
    // Assignment reaches the enclosing scope that binds the name.
    assert_eq!(inner.assign("b", 20), Some(()));
    let outer = inner.into_parent().unwrap();
    assert_eq!(outer.lookup("a"), Some(&1));
    assert_eq!(outer.lookup("b"), Some(&20));
    assert!(outer.into_parent().is_none());
}

#[test]
fn assign_changes_the_innermost_binding() {
    let mut outer: Environment<i32> = Environment::init();
    outer.define("a", 1);
    let mut inner = Environment::child(outer);
    inner.define("a", 2);
    assert_eq!(inner.assign("a", 3), Some(()));
    assert_eq!(inner.lookup("a"), Some(&3));
    let outer = inner.into_parent().unwrap();
    assert_eq!(outer.lookup("a"), Some(&1));
}
