use lru::value::Value;
use lru::Lru;

fn text_of(v: Option<Value>) -> Option<String> {
    v.map(|x| x.to_text())
}

#[test]
fn scenario_capacity_two() {
    let mut c = Lru::with_capacity(2);
    c.set("a".to_string(), Value::Int(1));
    c.set("b".to_string(), Value::Int(2));
    // a hit returns the stored value and makes "a" most recent: [a, b]
    assert_eq!(text_of(c.get("a".to_string())), Some("1".to_string()));
    // a new key evicts the least recent entry, "b"
    c.set("c".to_string(), Value::Int(3));
    assert_eq!(text_of(c.get("b".to_string())), None);
    // order is now [c, a]; hitting "a" promotes it: [a, c]
    assert_eq!(text_of(c.get("a".to_string())), Some("1".to_string()));
    assert_eq!(text_of(c.get("c".to_string())), Some("3".to_string()));
}

#[test]
fn scenario_capacity_one() {
    let mut c = Lru::with_capacity(1);
    c.set("x".to_string(), Value::Int(1));
    c.set("y".to_string(), Value::Int(2));
    assert_eq!(text_of(c.get("x".to_string())), None);
    assert_eq!(text_of(c.get("y".to_string())), Some("2".to_string()));
}

#[test]
fn repeated_set_keeps_size() {
    let mut c = Lru::with_capacity(2);
    c.set("a".to_string(), Value::Int(1));
    c.set("b".to_string(), Value::Int(2));
    c.set("a".to_string(), Value::Int(1));
    c.set("a".to_string(), Value::Int(1));
    // both keys are still present: the size never grew past two
    assert_eq!(text_of(c.get("b".to_string())), Some("2".to_string()));
    assert_eq!(text_of(c.get("a".to_string())), Some("1".to_string()));
}

#[test]
fn set_existing_updates_in_place() {
    let mut c = Lru::with_capacity(2);
    c.set("a".to_string(), Value::Int(1));
    c.set("b".to_string(), Value::Int(2));
    c.set("a".to_string(), Value::Str("nine".to_string()));
    // the update did not grow the cache, and "a" holds the new value
    assert_eq!(text_of(c.get("a".to_string())), Some("nine".to_string()));
    assert_eq!(text_of(c.get("b".to_string())), Some("2".to_string()));
}

#[test]
fn miss_leaves_state_unchanged() {
    let mut c = Lru::with_capacity(2);
    c.set("a".to_string(), Value::Int(1));
    c.set("b".to_string(), Value::Int(2));
    // order: [b, a]
    assert_eq!(text_of(c.get("zzz".to_string())), None);
    // the miss promoted nothing: "a" is still the eviction candidate
    c.set("c".to_string(), Value::Int(3));
    assert_eq!(text_of(c.get("a".to_string())), None);
    assert_eq!(text_of(c.get("b".to_string())), Some("2".to_string()));
}

#[test]
fn set_promotes_recency() {
    let mut c = Lru::with_capacity(2);
    c.set("a".to_string(), Value::Int(1));
    c.set("b".to_string(), Value::Int(2));
    // writing "a" again promotes it, so "b" becomes the tail
    c.set("a".to_string(), Value::Int(1));
    c.set("c".to_string(), Value::Int(3));
    assert_eq!(text_of(c.get("b".to_string())), None);
    assert_eq!(text_of(c.get("a".to_string())), Some("1".to_string()));
}

#[test]
fn zero_capacity_rejects_every_insertion() {
    let mut c = Lru::with_capacity(0);
    c.set("a".to_string(), Value::Int(1));
    assert_eq!(text_of(c.get("a".to_string())), None);
}

#[test]
fn default_capacity_is_five() {
    let mut c = Lru::new();
    for (k, v) in [("a", 1), ("b", 2), ("c", 3), ("d", 4), ("e", 5), ("f", 6)] {
        c.set(k.to_string(), Value::Int(v));
    }
    // six insertions into five slots: the oldest key fell out
    assert_eq!(text_of(c.get("a".to_string())), None);
    assert_eq!(text_of(c.get("b".to_string())), Some("2".to_string()));
    assert_eq!(text_of(c.get("f".to_string())), Some("6".to_string()));
}

#[test]
fn value_text_renderings() {
    assert_eq!(Value::Bool(true).to_text(), "true");
    assert_eq!(Value::Bool(false).to_text(), "false");
    assert_eq!(Value::Int(0).to_text(), "0");
    assert_eq!(Value::Int(42).to_text(), "42");
    assert_eq!(Value::Int(-42).to_text(), "-42");
    assert_eq!(Value::Int(isize::MIN).to_text(), isize::MIN.to_string());
    assert_eq!(Value::Int(isize::MAX).to_text(), isize::MAX.to_string());
    assert_eq!(Value::Str("hello".to_string()).to_text(), "hello");
    assert_eq!(Value::Str(String::new()).to_text(), "");
}
