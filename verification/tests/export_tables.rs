use name_resolve::analysis::{Analysis, Cached, Diagnostic};
use name_resolve::ast::{Ast, FnName, NodeKind};
use name_resolve::full::resolve;
use name_resolve::res::{Module, Node, Res, Symbol};

const A: Symbol = 100;
const B: Symbol = 101;
const C: Symbol = 102;
const M1: Symbol = 103;
const M2: Symbol = 104;
const X: Symbol = 110;
const Y: Symbol = 111;
const Z: Symbol = 112;
const W: Symbol = 113;
const ALIAS: Symbol = 120;

fn add(ast: &mut Ast, m: Module, kind: NodeKind, children: Vec<Node>) -> Node {
    ast.add_node(m, kind, children).unwrap()
}

fn path(ast: &mut Ast, m: Module, name: Symbol) -> Node {
    add(ast, m, NodeKind::Qualified { name, prefix: None, params: vec![] }, vec![])
}

/// A field list that declares the variable `name`.
fn field(ast: &mut Ast, m: Module, name: Symbol) -> (Node, Node) {
    let var = add(ast, m, NodeKind::VarDef { name }, vec![]);
    let member = add(ast, m, NodeKind::Member, vec![var]);
    (member, var)
}

fn method(ast: &mut Ast, m: Module, name: Symbol) -> (Node, Node) {
    let function = add(ast, m, NodeKind::Function { name: FnName::Regular(name) }, vec![]);
    let member = add(ast, m, NodeKind::Member, vec![function]);
    (member, function)
}

/// A class whose heritage clauses are bare names; the clauses are its first children.
fn class(
    ast: &mut Ast,
    m: Module,
    name: Symbol,
    extends: Option<Symbol>,
    with: Vec<Symbol>,
    implements: Vec<Symbol>,
    members: Vec<Node>,
) -> Node {
    let superclass = extends.map(|s| path(ast, m, s));
    let mixins: Vec<Node> = with.into_iter().map(|s| path(ast, m, s)).collect();
    let interfaces: Vec<Node> = implements.into_iter().map(|s| path(ast, m, s)).collect();
    let mut children: Vec<Node> = superclass.into_iter().collect();
    children.extend(mixins.iter().copied());
    children.extend(interfaces.iter().copied());
    children.extend(members);
    add(ast, m, NodeKind::Class { name, superclass, mixins, interfaces }, children)
}

fn superclass_of(ast: &Ast, class: Node) -> Node {
    match &ast.node(class).unwrap().kind {
        NodeKind::Class { superclass, .. } => superclass.unwrap(),
        _ => unreachable!(),
    }
}

#[test]
fn a_class_exports_what_it_declares() {
    let mut ast = Ast::new();
    let m = ast.add_module(false);
    let (field_x, x) = field(&mut ast, m, X);
    let (method_y, y) = method(&mut ast, m, Y);
    let named = add(&mut ast, m, NodeKind::Constructor { name: Some(Z) }, vec![]);
    let unnamed = add(&mut ast, m, NodeKind::Constructor { name: None }, vec![]);
    let a = class(&mut ast, m, A, None, vec![], vec![], vec![field_x, method_y, named, unnamed]);
    assert!(ast.set_items(m, vec![a]));
    let mut an = Analysis::new();
    let table = a.exports(&ast, &mut an).unwrap();
    assert_eq!(table.lookup(X), Res::Var(x));
    assert_eq!(table.lookup(Y), Res::Function(y));
    assert_eq!(table.lookup(Z), Res::Constructor(named));
    assert_eq!(table.lookup(A), Res::Error);
    assert_eq!(table.enclosing(), 0);
    assert!(an.diagnostics().is_empty());
}

#[test]
fn a_subclass_exports_its_own_names_and_those_of_its_superclass() {
    let mut ast = Ast::new();
    let m = ast.add_module(false);
    let (b_x, bx) = field(&mut ast, m, X);
    let (b_y, by) = field(&mut ast, m, Y);
    let b = class(&mut ast, m, B, None, vec![], vec![], vec![b_x, b_y]);
    let (a_y, ay) = field(&mut ast, m, Y);
    let (a_z, az) = field(&mut ast, m, Z);
    let a = class(&mut ast, m, A, Some(B), vec![], vec![], vec![a_y, a_z]);
    assert!(ast.set_items(m, vec![b, a]));
    let mut an = Analysis::new();
    assert!(resolve(&ast, &mut an, m, false));
    let table = a.exports(&ast, &mut an).unwrap();
    assert_eq!(table.lookup(X), Res::Var(bx));
    assert_eq!(table.lookup(Y), Res::Var(ay));
    assert_eq!(table.lookup(Z), Res::Var(az));
    assert_eq!(table.enclosing(), 1);
    assert!(table.binds_locally(Y));
    assert!(!table.binds_locally(X));
    let parent = b.exports(&ast, &mut an).unwrap();
    assert_eq!(parent.lookup(Y), Res::Var(by));
    assert_eq!(parent.lookup(Z), Res::Error);
    assert!(an.diagnostics().is_empty());
}

#[test]
fn inherited_names_come_through_the_whole_superclass_chain() {
    let mut ast = Ast::new();
    let m = ast.add_module(false);
    let (c_x, cx) = field(&mut ast, m, X);
    let c = class(&mut ast, m, C, None, vec![], vec![], vec![c_x]);
    let (b_y, by) = field(&mut ast, m, Y);
    let b = class(&mut ast, m, B, Some(C), vec![], vec![], vec![b_y]);
    let (a_z, az) = field(&mut ast, m, Z);
    let a = class(&mut ast, m, A, Some(B), vec![], vec![], vec![a_z]);
    assert!(ast.set_items(m, vec![a, b, c]));
    let mut an = Analysis::new();
    assert!(resolve(&ast, &mut an, m, false));
    let table = a.exports(&ast, &mut an).unwrap();
    assert_eq!(table.lookup(X), Res::Var(cx));
    assert_eq!(table.lookup(Y), Res::Var(by));
    assert_eq!(table.lookup(Z), Res::Var(az));
    assert_eq!(table.enclosing(), 2);
}

#[test]
fn asking_for_a_table_resolves_the_unit_first_when_the_superclass_is_not_resolved() {
    let mut ast = Ast::new();
    let m = ast.add_module(false);
    let (b_x, bx) = field(&mut ast, m, X);
    let b = class(&mut ast, m, B, None, vec![], vec![], vec![b_x]);
    let a = class(&mut ast, m, A, Some(B), vec![], vec![], vec![]);
    assert!(ast.set_items(m, vec![a, b]));
    let extends = superclass_of(&ast, a);
    let mut an = Analysis::new();
    assert_eq!(an.res(extends), None);
    let table = a.exports(&ast, &mut an).unwrap();
    assert_eq!(an.res(extends), Some(Res::Class(b)));
    assert_eq!(table.lookup(X), Res::Var(bx));
    assert_eq!(table.enclosing(), 1);
    assert!(an.diagnostics().is_empty());
}

#[test]
fn a_superclass_that_cannot_be_resolved_leaves_the_class_without_parent() {
    let mut ast = Ast::new();
    let m = ast.add_module(false);
    let (a_x, ax) = field(&mut ast, m, X);
    let a = class(&mut ast, m, A, Some(B), vec![], vec![], vec![a_x]);
    assert!(ast.set_items(m, vec![a]));
    let extends = superclass_of(&ast, a);
    let mut an = Analysis::new();
    let table = a.exports(&ast, &mut an).unwrap();
    assert_eq!(table.lookup(X), Res::Var(ax));
    assert_eq!(table.enclosing(), 0);
    assert_eq!(an.res(extends), None);
    assert_eq!(an.diagnostics(), &vec![Diagnostic::UnknownSuperclass(extends)]);
}

#[test]
fn a_superclass_clause_that_names_no_class_is_reported() {
    let mut ast = Ast::new();
    let m = ast.add_module(false);
    let e = add(&mut ast, m, NodeKind::Enum { name: B }, vec![]);
    let a = class(&mut ast, m, A, Some(B), vec![], vec![], vec![]);
    assert!(ast.set_items(m, vec![e, a]));
    let extends = superclass_of(&ast, a);
    let mut an = Analysis::new();
    let table = a.exports(&ast, &mut an).unwrap();
    assert_eq!(an.res(extends), Some(Res::Enum(e)));
    assert_eq!(table.enclosing(), 0);
    assert_eq!(an.diagnostics(), &vec![Diagnostic::UnknownSuperclass(extends)]);
}

#[test]
fn mixins_and_interfaces_are_flattened_in_order() {
    let mut ast = Ast::new();
    let m = ast.add_module(false);
    let (base_w, base_w_var) = field(&mut ast, m, W);
    let base = class(&mut ast, m, C, None, vec![], vec![], vec![base_w]);
    let (m1_x, m1x) = field(&mut ast, m, X);
    let (m1_y, _) = field(&mut ast, m, Y);
    let first = class(&mut ast, m, M1, Some(C), vec![], vec![], vec![m1_x, m1_y]);
    let (m2_y, m2y) = field(&mut ast, m, Y);
    let (m2_z, _) = field(&mut ast, m, Z);
    let second = class(&mut ast, m, M2, None, vec![], vec![], vec![m2_y, m2_z]);
    let (a_z, az) = field(&mut ast, m, Z);
    let a = class(&mut ast, m, A, None, vec![M1], vec![M2], vec![a_z]);
    assert!(ast.set_items(m, vec![base, first, second, a]));
    let mut an = Analysis::new();
    let table = a.exports(&ast, &mut an).unwrap();
    assert_eq!(table.enclosing(), 0);
    assert_eq!(table.lookup(W), Res::Var(base_w_var));
    assert_eq!(table.lookup(X), Res::Var(m1x));
    assert_eq!(table.lookup(Y), Res::Var(m2y));
    assert_eq!(table.lookup(Z), Res::Var(az));
    assert!(table.binds_locally(W));
    assert!(an.diagnostics().is_empty());
}

#[test]
fn a_later_mixin_shadows_an_earlier_one_and_both_shadow_the_superclass() {
    let mut ast = Ast::new();
    let m = ast.add_module(false);
    let (b_x, _) = field(&mut ast, m, X);
    let (b_w, bw) = field(&mut ast, m, W);
    let b = class(&mut ast, m, B, None, vec![], vec![], vec![b_x, b_w]);
    let (m1_x, _) = field(&mut ast, m, X);
    let first = class(&mut ast, m, M1, None, vec![], vec![], vec![m1_x]);
    let (m2_x, m2x) = field(&mut ast, m, X);
    let second = class(&mut ast, m, M2, None, vec![], vec![], vec![m2_x]);
    let a = class(&mut ast, m, A, Some(B), vec![M1, M2], vec![], vec![]);
    assert!(ast.set_items(m, vec![b, first, second, a]));
    let mut an = Analysis::new();
    let table = a.exports(&ast, &mut an).unwrap();
    assert_eq!(table.lookup(X), Res::Var(m2x));
    assert_eq!(table.lookup(W), Res::Var(bw));
    assert_eq!(table.enclosing(), 1);
}

#[test]
fn a_class_that_can_be_mixed_in_has_mixins_but_no_superclass() {
    let mut ast = Ast::new();
    let m = ast.add_module(false);
    let (b_x, bx) = field(&mut ast, m, X);
    let b = class(&mut ast, m, B, None, vec![], vec![], vec![b_x]);
    let with = path(&mut ast, m, B);
    let (own_y, y) = field(&mut ast, m, Y);
    let mixin = add(
        &mut ast,
        m,
        NodeKind::MixinClass { name: A, mixins: vec![with], interfaces: vec![] },
        vec![with, own_y],
    );
    assert!(ast.set_items(m, vec![b, mixin]));
    let mut an = Analysis::new();
    let table = mixin.exports(&ast, &mut an).unwrap();
    assert_eq!(table.lookup(X), Res::Var(bx));
    assert_eq!(table.lookup(Y), Res::Var(y));
    assert_eq!(table.enclosing(), 0);
}

#[test]
fn a_mixin_that_cannot_be_resolved_is_reported_and_left_out() {
    let mut ast = Ast::new();
    let m = ast.add_module(false);
    let (m2_x, m2x) = field(&mut ast, m, X);
    let second = class(&mut ast, m, M2, None, vec![], vec![], vec![m2_x]);
    let a = class(&mut ast, m, A, None, vec![M1, M2], vec![], vec![]);
    assert!(ast.set_items(m, vec![second, a]));
    let unknown = match &ast.node(a).unwrap().kind {
        NodeKind::Class { mixins, .. } => mixins[0],
        _ => unreachable!(),
    };
    let mut an = Analysis::new();
    let table = a.exports(&ast, &mut an).unwrap();
    assert_eq!(table.lookup(X), Res::Var(m2x));
    assert_eq!(an.diagnostics(), &vec![Diagnostic::UnknownClass(unknown)]);
}

#[test]
fn the_export_table_of_a_class_is_computed_once() {
    let mut ast = Ast::new();
    let m = ast.add_module(false);
    let (b_x, _) = field(&mut ast, m, X);
    let b = class(&mut ast, m, B, None, vec![], vec![], vec![b_x]);
    let (a_y, _) = field(&mut ast, m, Y);
    let a = class(&mut ast, m, A, Some(C), vec![B], vec![], vec![a_y]);
    assert!(ast.set_items(m, vec![b, a]));
    let mut an = Analysis::new();
    assert!(matches!(an.class_table(a), Cached::Absent));
    let first = a.exports(&ast, &mut an).unwrap();
    let raised = an.diagnostics().len();
    assert_eq!(raised, 1);
    assert!(matches!(an.class_table(a), Cached::Ready(_)));
    let second = a.exports(&ast, &mut an).unwrap();
    assert_eq!(an.diagnostics().len(), raised);
    for name in [A, B, C, X, Y, Z] {
        assert_eq!(first.lookup(name), second.lookup(name));
    }
    assert_eq!(first.enclosing(), second.enclosing());
}

#[test]
fn a_class_that_extends_itself_is_reported_as_a_cycle() {
    let mut ast = Ast::new();
    let m = ast.add_module(false);
    let (a_x, ax) = field(&mut ast, m, X);
    let a = class(&mut ast, m, A, Some(A), vec![], vec![], vec![a_x]);
    assert!(ast.set_items(m, vec![a]));
    let mut an = Analysis::new();
    let table = a.exports(&ast, &mut an).unwrap();
    assert_eq!(table.lookup(X), Res::Var(ax));
    assert_eq!(table.enclosing(), 0);
    assert_eq!(an.diagnostics(), &vec![Diagnostic::CyclicHierarchy(a)]);
}

#[test]
fn classes_that_extend_each_other_are_cut_where_the_cycle_closes() {
    let mut ast = Ast::new();
    let m = ast.add_module(false);
    let (a_x, ax) = field(&mut ast, m, X);
    let a = class(&mut ast, m, A, Some(B), vec![], vec![], vec![a_x]);
    let (b_y, by) = field(&mut ast, m, Y);
    let b = class(&mut ast, m, B, Some(A), vec![], vec![], vec![b_y]);
    assert!(ast.set_items(m, vec![a, b]));
    let mut an = Analysis::new();
    let table = a.exports(&ast, &mut an).unwrap();
    assert_eq!(table.lookup(X), Res::Var(ax));
    assert_eq!(table.lookup(Y), Res::Var(by));
    assert_eq!(table.enclosing(), 1);
    assert_eq!(an.diagnostics(), &vec![Diagnostic::CyclicHierarchy(a)]);
    let other = b.exports(&ast, &mut an).unwrap();
    assert_eq!(other.lookup(Y), Res::Var(by));
    assert_eq!(other.lookup(X), Res::Error);
    assert_eq!(other.enclosing(), 0);
    assert_eq!(an.diagnostics().len(), 1);
}

#[test]
fn a_table_that_is_being_computed_cannot_be_had() {
    let mut ast = Ast::new();
    let m = ast.add_module(false);
    let a = class(&mut ast, m, A, None, vec![], vec![], vec![]);
    let mut an = Analysis::new();
    an.begin_class(a);
    assert!(matches!(an.class_table(a), Cached::Busy));
    assert!(a.exports(&ast, &mut an).is_none());
    assert_eq!(an.diagnostics(), &vec![Diagnostic::CyclicHierarchy(a)]);
    an.begin_module(m);
    assert!(m.exports(&ast, &mut an).is_none());
    assert_eq!(an.diagnostics().len(), 2);
    assert_eq!(an.diagnostics()[1], Diagnostic::CyclicExport(m));
}

#[test]
fn a_superclass_in_another_unit_is_found_through_an_import() {
    let mut ast = Ast::new();
    let lib = ast.add_module(false);
    let (b_x, bx) = field(&mut ast, lib, X);
    let b = class(&mut ast, lib, B, None, vec![], vec![], vec![b_x]);
    assert!(ast.set_items(lib, vec![b]));
    let m = ast.add_module(false);
    let import = add(
        &mut ast,
        m,
        NodeKind::Import { module: lib, filters: vec![], alias: None, deferred: false },
        vec![],
    );
    let a = class(&mut ast, m, A, Some(B), vec![], vec![], vec![]);
    assert!(ast.set_items(m, vec![import, a]));
    let mut an = Analysis::new();
    let table = a.exports(&ast, &mut an).unwrap();
    assert_eq!(table.lookup(X), Res::Var(bx));
    assert_eq!(table.enclosing(), 1);
}

#[test]
fn members_are_looked_up_in_the_export_table_of_a_class_or_a_unit() {
    let mut ast = Ast::new();
    let m = ast.add_module(false);
    let (a_x, ax) = field(&mut ast, m, X);
    let a = class(&mut ast, m, A, None, vec![], vec![], vec![a_x]);
    assert!(ast.set_items(m, vec![a]));
    let mut an = Analysis::new();
    assert_eq!(Res::Class(a).lookup_member(&ast, &mut an, X), Res::Var(ax));
    assert_eq!(Res::Class(a).lookup_member(&ast, &mut an, Y), Res::Error);
    assert_eq!(Res::Module(m).lookup_member(&ast, &mut an, A), Res::Class(a));
    assert_eq!(Res::Module(m).lookup_member(&ast, &mut an, X), Res::Error);
    assert!(an.diagnostics().is_empty());
}

#[test]
fn nothing_but_a_class_or_a_unit_has_members() {
    let mut ast = Ast::new();
    let m = ast.add_module(false);
    let (a_x, x) = field(&mut ast, m, X);
    let a = class(&mut ast, m, A, None, vec![], vec![], vec![a_x]);
    assert!(ast.set_items(m, vec![a]));
    let mut an = Analysis::new();
    let all = [
        Res::Void,
        Res::Dynamic,
        Res::Enum(a),
        Res::TypeAlias(a),
        Res::TypeParameter(a),
        Res::Null,
        Res::False,
        Res::True,
        Res::This,
        Res::Super,
        Res::RuntimeType,
        Res::Var(x),
        Res::Function(a),
        Res::Getter(a),
        Res::Setter(a),
        Res::GetterSetter(a, a),
        Res::Constructor(a),
        Res::Extension(9),
        Res::Error,
    ];
    for res in all {
        assert_eq!(res.lookup_member(&ast, &mut an, X), Res::Error);
    }
    assert!(matches!(an.class_table(a), Cached::Absent));
    assert!(an.diagnostics().is_empty());
}

#[test]
fn a_member_of_a_table_that_cannot_be_had_is_error() {
    let mut ast = Ast::new();
    let m = ast.add_module(false);
    let (a_x, _) = field(&mut ast, m, X);
    let a = class(&mut ast, m, A, None, vec![], vec![], vec![a_x]);
    assert!(ast.set_items(m, vec![a]));
    let mut an = Analysis::new();
    assert_eq!(Res::Class(a).lookup_member_within(&ast, &mut an, X, 0), Res::Error);
    assert_eq!(an.diagnostics(), &vec![Diagnostic::NestingLimit]);
    assert_eq!(Res::Module(m).lookup_member_within(&ast, &mut an, A, 0), Res::Error);
    assert_eq!(an.diagnostics(), &vec![Diagnostic::NestingLimit, Diagnostic::NestingLimit]);
    assert_eq!(Res::Class(a).lookup_member(&ast, &mut an, ALIAS), Res::Error);
    assert_eq!(an.diagnostics().len(), 2);
}

#[test]
fn a_handle_that_names_nothing_has_an_empty_table() {
    let ast = Ast::new();
    let mut an = Analysis::new();
    let nowhere = Node { index: 12 };
    let table = nowhere.exports(&ast, &mut an).unwrap();
    assert_eq!(table.lookup(X), Res::Error);
    assert_eq!(table.enclosing(), 0);
    assert!(matches!(an.class_table(nowhere), Cached::Absent));
    an.begin_class(nowhere);
    assert!(nowhere.exports(&ast, &mut an).is_some());
    let no_unit = Module { index: 3 };
    let table = no_unit.exports(&ast, &mut an).unwrap();
    assert_eq!(table.lookup(X), Res::Error);
    assert!(matches!(an.module_table(no_unit), Cached::Absent));
    assert_eq!(Res::Class(nowhere).lookup_member(&ast, &mut an, X), Res::Error);
    assert!(an.diagnostics().is_empty());
}

#[test]
fn a_table_is_computed_within_the_depth_that_is_given() {
    let mut ast = Ast::new();
    let m = ast.add_module(false);
    let (b_x, bx) = field(&mut ast, m, X);
    let b = class(&mut ast, m, B, None, vec![], vec![], vec![b_x]);
    let a = class(&mut ast, m, A, Some(B), vec![], vec![], vec![]);
    assert!(ast.set_items(m, vec![b, a]));
    let mut an = Analysis::new();
    assert!(resolve(&ast, &mut an, m, false));
    let shallow = name_resolve::exports::class_exports_within(a, &ast, &mut an, 1).unwrap();
    assert_eq!(shallow.lookup(X), Res::Error);
    assert_eq!(shallow.enclosing(), 0);
    assert_eq!(an.diagnostics(), &vec![Diagnostic::NestingLimit]);
    let mut fresh = Analysis::new();
    assert!(resolve(&ast, &mut fresh, m, false));
    let deep = name_resolve::exports::class_exports_within(a, &ast, &mut fresh, 2).unwrap();
    assert_eq!(deep.lookup(X), Res::Var(bx));
    assert_eq!(deep.enclosing(), 1);
    assert!(fresh.diagnostics().is_empty());
}

#[test]
fn a_long_chain_of_superclasses_is_followed_to_its_end() {
    let mut ast = Ast::new();
    let m = ast.add_module(false);
    let length: u32 = 200;
    let (root_x, x) = field(&mut ast, m, X);
    let mut classes = vec![class(&mut ast, m, 1000, None, vec![], vec![], vec![root_x])];
    for i in 1..length {
        classes.push(class(&mut ast, m, 1000 + i, Some(1000 + i - 1), vec![], vec![], vec![]));
    }
    let last = *classes.last().unwrap();
    classes.reverse();
    assert!(ast.set_items(m, classes));
    let mut an = Analysis::new();
    let table = last.exports(&ast, &mut an).unwrap();
    assert_eq!(table.lookup(X), Res::Var(x));
    assert_eq!(table.enclosing(), 199);
    assert!(an.diagnostics().is_empty());
}

#[test]
fn a_long_chain_of_exporting_units_is_followed_to_its_end() {
    let mut ast = Ast::new();
    let length = 100;
    let units: Vec<Module> = (0..length).map(|_| ast.add_module(false)).collect();
    let a = class(&mut ast, units[length - 1], A, None, vec![], vec![], vec![]);
    assert!(ast.set_items(units[length - 1], vec![a]));
    for i in 0..length - 1 {
        let export = add(
            &mut ast,
            units[i],
            NodeKind::Export { module: units[i + 1], filters: vec![] },
            vec![],
        );
        assert!(ast.set_items(units[i], vec![export]));
    }
    let mut an = Analysis::new();
    let table = units[0].exports(&ast, &mut an).unwrap();
    assert_eq!(table.lookup(A), Res::Class(a));
    assert!(an.diagnostics().is_empty());
    for unit in units {
        assert!(matches!(an.module_table(unit), Cached::Ready(_)));
    }
}
