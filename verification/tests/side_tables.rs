use name_resolve::analysis::{Analysis, Cached, Diagnostic};
use name_resolve::res::{Module, Node, Res};
use name_resolve::scope::ScopeChain;

#[test]
fn new_side_tables_hold_nothing() {
    let an = Analysis::new();
    let node = Node { index: 0 };
    let unit = Module { index: 0 };
    assert_eq!(an.res(node), None);
    assert!(matches!(an.class_table(node), Cached::Absent));
    assert!(matches!(an.module_table(unit), Cached::Absent));
    assert!(an.diagnostics().is_empty());
}

#[test]
fn a_result_is_written_once() {
    let mut an = Analysis::new();
    let node = Node { index: 4 };
    an.attach(node, Res::Error);
    assert_eq!(an.res(node), Some(Res::Error));
    an.attach(node, Res::Null);
    assert_eq!(an.res(node), Some(Res::Error));
    assert_eq!(an.res(Node { index: 5 }), None);
}

#[test]
fn a_table_goes_from_absent_to_busy_to_ready() {
    let mut an = Analysis::new();
    let node = Node { index: 2 };
    let unit = Module { index: 2 };
    an.begin_class(node);
    assert!(matches!(an.class_table(node), Cached::Busy));
    assert!(matches!(an.module_table(unit), Cached::Absent));
    let mut chain = ScopeChain::new(None);
    chain.record(9, Res::True);
    an.finish_class(node, chain);
    match an.class_table(node) {
        Cached::Ready(kept) => assert_eq!(kept.lookup(9), Res::True),
        _ => panic!("the table is kept"),
    }
    an.begin_module(unit);
    assert!(matches!(an.module_table(unit), Cached::Busy));
    an.finish_module(unit, ScopeChain::new(None));
    match an.module_table(unit) {
        Cached::Ready(kept) => assert_eq!(kept.lookup(9), Res::Error),
        _ => panic!("the table is kept"),
    }
}

#[test]
fn diagnostics_are_kept_in_the_order_they_were_raised() {
    let mut an = Analysis::new();
    let first = Diagnostic::UnknownPath(Node { index: 1 });
    let second = Diagnostic::NestingLimit;
    let third = Diagnostic::UnknownPath(Node { index: 1 });
    an.report(first);
    an.report(second);
    an.report(third);
    assert_eq!(an.diagnostics(), &vec![first, second, third]);
}
