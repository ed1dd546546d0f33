use microfiche::metaparser::{Directive, HandlerKind};
use microfiche::symtab::{SymbolTable, SymbolTableBinding};

#[test]
fn new_table_is_empty() {
    let t = SymbolTable::new();
    assert!(!t.is_bound("anything"));
    assert!(t.lookup("anything").is_none());
}

#[test]
fn root_table_has_the_builtin_directives() {
    let t = SymbolTable::root();
    assert!(t.is_bound("note"));
    assert!(t.is_bound("exec"));
    assert!(!t.is_bound("other"));
    match t.lookup("exec") {
        Some(SymbolTableBinding::Directive(d)) => {
            assert_eq!(d.name, "exec");
            assert!(matches!(d.handler, HandlerKind::Exec));
        },
        _ => panic!("expected a directive binding for exec"),
    }
    match t.lookup("note") {
        Some(SymbolTableBinding::Directive(d)) => {
            assert_eq!(d.name, "note");
            assert!(matches!(d.handler, HandlerKind::Note));
        },
        _ => panic!("expected a directive binding for note"),
    }
}

#[test]
fn bind_then_lookup_returns_the_binding() {
    let mut t = SymbolTable::new();
    t.bind("x", SymbolTableBinding::Data("payload".to_string()));
    assert!(t.is_bound("x"));
    match t.lookup("x") {
        Some(SymbolTableBinding::Data(s)) => assert_eq!(s, "payload"),
        _ => panic!("expected a data binding for x"),
    }
}

#[test]
fn bind_replaces_an_earlier_binding() {
    let mut t = SymbolTable::new();
    t.bind("x", SymbolTableBinding::Data("one".to_string()));
    t.bind("x", SymbolTableBinding::Data("two".to_string()));
    match t.lookup("x") {
        Some(SymbolTableBinding::Data(s)) => assert_eq!(s, "two"),
        _ => panic!("expected a data binding for x"),
    }
}

#[test]
fn unbind_removes_a_binding() {
    let mut t = SymbolTable::new();
    t.bind("x", SymbolTableBinding::Data("one".to_string()));
    t.bind("y", SymbolTableBinding::Data("two".to_string()));
    t.unbind("x");
    assert!(!t.is_bound("x"));
    assert!(t.is_bound("y"));
    t.unbind("never-bound");
    assert!(t.is_bound("y"));
}

#[test]
fn bindings_can_nest_modules() {
    let mut inner = SymbolTable::new();
    inner.bind("leaf", SymbolTableBinding::Data("value".to_string()));
    let mut outer = SymbolTable::new();
    outer.bind(
        "branch",
        SymbolTableBinding::Module(inner),
    );
    outer.bind(
        "run",
        SymbolTableBinding::Directive(Directive {
            name: "run".to_string(),
            handler: HandlerKind::Exec,
        }),
    );
    match outer.lookup("branch") {
        Some(SymbolTableBinding::Module(m)) => match m.lookup("leaf") {
            Some(SymbolTableBinding::Data(s)) => assert_eq!(s, "value"),
            _ => panic!("expected a data binding for leaf"),
        },
        _ => panic!("expected a module binding for branch"),
    }
}
