use lib::callable::{Callable, NativeFunction, NativeKind, Value};
use lib::env::Env;

fn text(v: Option<Value>) -> Option<String> {
    match v {
        Some(Value::Str(s)) => Some(s),
        Some(_) => Some("<other>".to_string()),
        None => None,
    }
}

#[test]
fn global_scope_holds_clock() {
    let env = Env::global();
    match env.get(0, "clock") {
        Some(Value::Callable(Callable::Native(n))) => {
            assert_eq!(n.name, "clock");
            assert_eq!(n.arity, 0);
            assert_eq!(n.kind, NativeKind::Clock);
        }
        _ => panic!("clock is missing"),
    }
    assert!(env.get(0, "other").is_none());
}

#[test]
fn get_after_define() {
    let mut env = Env::new();
    env.define(0, "a".to_string(), Value::Str("one".to_string()));
    assert_eq!(text(env.get(0, "a")), Some("one".to_string()));
    env.define(0, "a".to_string(), Value::Str("two".to_string()));
    assert_eq!(text(env.get(0, "a")), Some("two".to_string()));
}

#[test]
fn enclosed_scope_sees_enclosing() {
    let mut env = Env::new();
    env.define(0, "a".to_string(), Value::Bool(true));
    let inner = env.enclosed(0);
    assert_eq!(inner, 1);
    assert!(matches!(env.get(inner, "a"), Some(Value::Bool(true))));
}

#[test]
fn inner_definition_shadows_and_is_unseen_outside() {
    let mut env = Env::new();
    env.define(0, "a".to_string(), Value::Str("outer".to_string()));
    let inner = env.enclosed(0);
    env.define(inner, "a".to_string(), Value::Str("inner".to_string()));
    env.define(inner, "b".to_string(), Value::Nil);
    assert_eq!(text(env.get(inner, "a")), Some("inner".to_string()));
    assert_eq!(text(env.get(0, "a")), Some("outer".to_string()));
    assert!(env.get(0, "b").is_none());
}

#[test]
fn assign_updates_the_nearest_definition() {
    let mut env = Env::new();
    env.define(0, "a".to_string(), Value::Str("outer".to_string()));
    let inner = env.enclosed(0);
    assert_eq!(env.assign(inner, "a", Value::Str("changed".to_string())), Some(()));
    assert_eq!(text(env.get(0, "a")), Some("changed".to_string()));
    assert_eq!(env.assign(inner, "missing", Value::Nil), None);
    assert!(env.get(inner, "missing").is_none());
}

#[test]
fn define_native_binds_a_callable() {
    let mut env = Env::new();
    let f = Callable::Native(NativeFunction { name: "clock".to_string(), arity: 0, kind: NativeKind::Clock });
    env.define_native(0, "now", f);
    match env.get(0, "now") {
        Some(Value::Callable(c)) => {
            assert_eq!(c.arity(), 0);
            assert_eq!(c.name(), "clock");
        }
        _ => panic!("missing"),
    }
}
