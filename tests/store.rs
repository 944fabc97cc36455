use rulelib::compile::default_program;
use rulelib::store::{load_program, set_program, RuleStore};
use rulelib::vm::{Instruction, Ipv4, Program};

#[test]
fn test_all_ok() {
    let mut store = RuleStore::new();

    // Create test
    let name = "TestRule";
    let content = "TestContent";
    let id = store.create(name.to_string(), content.to_string()).unwrap();
    assert_eq!(id, 1);

    // Request test
    let file = store.request(1).unwrap();
    assert_eq!(file.id, id);
    assert_eq!(file.name, name);
    assert_eq!(file.content, content);

    // Update test
    let new_content = "TestUpdateCompleted";
    store.update(id, new_content.to_string()).unwrap();
    let file = store.request(id).unwrap();
    assert_eq!(file.id, id);
    assert_eq!(file.name, name);
    assert_eq!(file.content, new_content);

    // Delete test
    store.delete(id).unwrap();
    let not_found = store.request(id);
    assert!(not_found.is_err());
}

#[test]
fn store_ids_increase_and_are_not_reused() {
    let mut store = RuleStore::new();
    let a = store.create("a".to_string(), "x".to_string()).unwrap();
    let b = store.create("b".to_string(), "y".to_string()).unwrap();
    assert!(a < b);
    store.delete(b).unwrap();
    let c = store.create("c".to_string(), "z".to_string()).unwrap();
    assert!(c > b);
    let listed: Vec<i64> = store.list().iter().map(|f| f.id).collect();
    assert_eq!(listed, vec![a, c]);
}

#[test]
fn store_create_then_delete_restores_reads() {
    let mut store = RuleStore::new();
    store.create("keep".to_string(), "k".to_string()).unwrap();
    let before: Vec<(i64, String, String)> =
        store.list().into_iter().map(|f| (f.id, f.name, f.content)).collect();
    let id = store.create("tmp".to_string(), "t".to_string()).unwrap();
    assert!(store.request(id).is_ok());
    store.delete(id).unwrap();
    assert!(store.request(id).is_err());
    let after: Vec<(i64, String, String)> =
        store.list().into_iter().map(|f| (f.id, f.name, f.content)).collect();
    assert_eq!(before, after);
}

#[test]
fn store_unknown_ids_are_errors() {
    let mut store = RuleStore::new();
    assert!(store.request(1).is_err());
    assert!(store.update(1, "c".to_string()).is_err());
    assert!(store.delete(1).is_err());
    assert!(store.delete(0).is_err());
    assert!(store.request(-5).is_err());
}

#[test]
fn structural_failure_keeps_active_program() {
    let mut store = RuleStore::new();
    let bad = store.create("bad".to_string(), r#"(def-rule r (if 69 420 "foo"))"#.to_string()).unwrap();
    let mut active = default_program(Ipv4::new(127, 0, 0, 1), 8080);
    let before = active.clone();
    assert!(set_program(&store, bad, &mut active).is_err());
    assert_eq!(active.instructions, before.instructions);
    assert_eq!(active.data, before.data);
    assert!(set_program(&store, 99, &mut active).is_err());
    assert_eq!(active.instructions, before.instructions);
}

#[test]
fn set_program_installs_compiled_content() {
    let mut store = RuleStore::new();
    let id = store.create("drop".to_string(), "(def-rule r DROP)".to_string()).unwrap();
    let mut active = Program::default();
    set_program(&store, id, &mut active).unwrap();
    assert_eq!(active.instructions, vec![Instruction::DROP]);
    let loaded = load_program(&store, id).unwrap();
    assert_eq!(loaded.instructions, active.instructions);
}

#[test]
fn install_errors_describe_the_cause() {
    let mut store = RuleStore::new();
    let bad = store.create("bad".to_string(), r#"(def-rule r (if 69 420 "foo"))"#.to_string()).unwrap();
    let open = store.create("open".to_string(), "(def-rule r DROP".to_string()).unwrap();
    let mut active = Program::default();
    let rulelib::store::Error::Anyhow(m) = set_program(&store, bad, &mut active).unwrap_err();
    assert!(m.starts_with("the rule content does not validate: "));
    assert!(m.contains("predicate must be an ident or Sexp"));
    let rulelib::store::Error::Anyhow(m) = load_program(&store, open).unwrap_err();
    assert_eq!(m, "the rule content is not well-formed at character 0");
    let rulelib::store::Error::Anyhow(m) = load_program(&store, 42).unwrap_err();
    assert_eq!(m, "Failed to query rulefile: no such id");
}
