use name_resolve::analysis::{Analysis, Cached, Diagnostic};
use name_resolve::ast::{Ast, FnName, NodeKind};
use name_resolve::collect::Collector;
use name_resolve::full::{resolve, resolve_identifier, Resolver};
use name_resolve::res::{
    Module, Node, Res, Symbol, SYM_NULL, SYM_RUNTIME_TYPE, SYM_SUPER, SYM_THIS, SYM_TRUE, SYM_VOID,
};
use name_resolve::shallow::TopLevelResolver;

const A: Symbol = 100;
const B: Symbol = 101;
const F: Symbol = 105;
const G: Symbol = 106;
const T: Symbol = 107;
const X: Symbol = 110;
const Y: Symbol = 111;
const Z: Symbol = 112;
const INT: Symbol = 115;
const ALIAS: Symbol = 120;

fn add(ast: &mut Ast, m: Module, kind: NodeKind, children: Vec<Node>) -> Node {
    ast.add_node(m, kind, children).unwrap()
}

fn path(ast: &mut Ast, m: Module, name: Symbol) -> Node {
    add(ast, m, NodeKind::Qualified { name, prefix: None, params: vec![] }, vec![])
}

fn ident(ast: &mut Ast, m: Module, name: Symbol) -> Node {
    add(ast, m, NodeKind::Identifier { name }, vec![])
}

fn var(ast: &mut Ast, m: Module, name: Symbol, init: Vec<Node>) -> Node {
    add(ast, m, NodeKind::VarDef { name }, init)
}

/// A statement that holds the given nodes.
fn statement(ast: &mut Ast, m: Module, children: Vec<Node>) -> Node {
    add(ast, m, NodeKind::Other, children)
}

fn block(ast: &mut Ast, m: Module, statements: Vec<Node>) -> Node {
    add(ast, m, NodeKind::Block, statements)
}

/// A top-level function `name` with the given children.
fn function_item(ast: &mut Ast, m: Module, name: Symbol, children: Vec<Node>) -> (Node, Node) {
    let function = add(ast, m, NodeKind::Function { name: FnName::Regular(name) }, children);
    let item = add(ast, m, NodeKind::Item, vec![function]);
    (item, function)
}

fn field(ast: &mut Ast, m: Module, ty: Symbol, name: Symbol) -> (Node, Node, Node) {
    let ty = path(ast, m, ty);
    let var = add(ast, m, NodeKind::VarDef { name }, vec![]);
    let member = add(ast, m, NodeKind::Member, vec![ty, var]);
    (member, ty, var)
}

fn plain_class(ast: &mut Ast, m: Module, name: Symbol, children: Vec<Node>) -> Node {
    let kind = NodeKind::Class { name, superclass: None, mixins: vec![], interfaces: vec![] };
    add(ast, m, kind, children)
}

fn unknown_values(an: &Analysis) -> Vec<Node> {
    an.diagnostics()
        .iter()
        .filter_map(|d| match d {
            Diagnostic::UnknownValue(n) => Some(*n),
            _ => None,
        })
        .collect()
}

#[test]
fn subclass_sees_inherited_and_own_fields_after_full_resolution() {
    let mut ast = Ast::new();
    let m = ast.add_module(false);
    let (field_x, int_x, x) = field(&mut ast, m, INT, X);
    let a = plain_class(&mut ast, m, A, vec![field_x]);
    let extends = path(&mut ast, m, A);
    let (field_y, _, y) = field(&mut ast, m, INT, Y);
    let b = add(
        &mut ast,
        m,
        NodeKind::Class { name: B, superclass: Some(extends), mixins: vec![], interfaces: vec![] },
        vec![extends, field_y],
    );
    assert!(ast.set_items(m, vec![a, b]));

    let mut an = Analysis::new();
    assert!(resolve(&ast, &mut an, m, true));

    assert_eq!(an.res(extends), Some(Res::Class(a)));
    let table = b.exports(&ast, &mut an).unwrap();
    assert_eq!(table.lookup(X), Res::Var(x));
    assert_eq!(table.lookup(Y), Res::Var(y));
    assert_eq!(table.lookup(A), Res::Error);
    assert_eq!(an.res(int_x), Some(Res::Error));
    assert!(an.diagnostics().contains(&Diagnostic::UnknownPath(int_x)));
}

/// `class A {}  class B extends A {}  f() { x; A a; }`
fn unit_with_a_function(ast: &mut Ast) -> (Module, Node, Node, Node, Node) {
    let m = ast.add_module(false);
    let a = plain_class(ast, m, A, vec![]);
    let extends = path(ast, m, A);
    let b = add(
        ast,
        m,
        NodeKind::Class { name: B, superclass: Some(extends), mixins: vec![], interfaces: vec![] },
        vec![extends],
    );
    let use_f = ident(ast, m, F);
    let first = statement(ast, m, vec![use_f]);
    let local_type = path(ast, m, A);
    let local = var(ast, m, X, vec![]);
    let second = statement(ast, m, vec![local_type, local]);
    let body = block(ast, m, vec![first, second]);
    let (item, _) = function_item(ast, m, F, vec![body]);
    assert!(ast.set_items(m, vec![a, b, item]));
    (m, a, extends, use_f, local_type)
}

#[test]
fn resolving_types_only_leaves_identifiers_without_result() {
    let mut ast = Ast::new();
    let (m, a, extends, use_f, local_type) = unit_with_a_function(&mut ast);
    let mut an = Analysis::new();
    assert!(resolve(&ast, &mut an, m, false));
    assert_eq!(an.res(extends), Some(Res::Class(a)));
    assert_eq!(an.res(local_type), Some(Res::Class(a)));
    assert_eq!(an.res(use_f), None);
    assert!(an.diagnostics().is_empty());
    assert!(matches!(an.class_table(a), Cached::Absent));
}

#[test]
fn resolving_fully_attaches_a_result_to_every_identifier() {
    let mut ast = Ast::new();
    let (m, a, extends, use_f, local_type) = unit_with_a_function(&mut ast);
    let mut an = Analysis::new();
    assert!(resolve(&ast, &mut an, m, true));
    assert_eq!(an.res(extends), Some(Res::Class(a)));
    assert_eq!(an.res(local_type), Some(Res::Class(a)));
    assert!(matches!(an.res(use_f), Some(Res::Function(_))));
    assert!(an.diagnostics().is_empty());
}

#[test]
fn resolving_fully_after_resolving_types_goes_on_from_there() {
    let mut ast = Ast::new();
    let (m, a, extends, use_f, _) = unit_with_a_function(&mut ast);
    let mut an = Analysis::new();
    assert!(resolve(&ast, &mut an, m, false));
    assert_eq!(an.res(use_f), None);
    assert!(resolve(&ast, &mut an, m, true));
    assert_eq!(an.res(extends), Some(Res::Class(a)));
    assert!(matches!(an.res(use_f), Some(Res::Function(_))));
}

#[test]
fn an_undeclared_identifier_is_error_with_one_diagnostic_and_the_rest_resolves() {
    let mut ast = Ast::new();
    let m = ast.add_module(false);
    let declared = var(&mut ast, m, X, vec![]);
    let declaration = statement(&mut ast, m, vec![declared]);
    let good = ident(&mut ast, m, X);
    let bad = ident(&mut ast, m, Y);
    let again = ident(&mut ast, m, X);
    let builtin = ident(&mut ast, m, SYM_TRUE);
    let uses = statement(&mut ast, m, vec![good, bad, again, builtin]);
    let body = block(&mut ast, m, vec![declaration, uses]);
    let (item, f) = function_item(&mut ast, m, F, vec![body]);
    let outside = ident(&mut ast, m, F);
    let init = var(&mut ast, m, Z, vec![outside]);
    let other_item = add(&mut ast, m, NodeKind::Item, vec![init]);
    assert!(ast.set_items(m, vec![item, other_item]));

    let mut an = Analysis::new();
    assert!(resolve(&ast, &mut an, m, true));
    assert_eq!(an.res(bad), Some(Res::Error));
    assert_eq!(an.diagnostics(), &vec![Diagnostic::UnknownValue(bad)]);
    assert_eq!(an.res(good), Some(Res::Var(declared)));
    assert_eq!(an.res(again), Some(Res::Var(declared)));
    assert_eq!(an.res(builtin), Some(Res::True));
    assert_eq!(an.res(outside), Some(Res::Function(f)));
}

#[test]
fn resolving_again_raises_no_second_diagnostic_for_an_identifier() {
    let mut ast = Ast::new();
    let m = ast.add_module(false);
    let bad = ident(&mut ast, m, Y);
    let body = block(&mut ast, m, vec![bad]);
    let (item, _) = function_item(&mut ast, m, F, vec![body]);
    assert!(ast.set_items(m, vec![item]));
    let mut an = Analysis::new();
    assert!(resolve(&ast, &mut an, m, true));
    assert!(resolve(&ast, &mut an, m, true));
    assert_eq!(an.diagnostics(), &vec![Diagnostic::UnknownValue(bad)]);
    assert_eq!(an.res(bad), Some(Res::Error));
}

#[test]
fn a_variable_is_visible_from_its_declaration_on() {
    let mut ast = Ast::new();
    let m = ast.add_module(false);
    let before = ident(&mut ast, m, X);
    let first = statement(&mut ast, m, vec![before]);
    let in_init = ident(&mut ast, m, X);
    let x = var(&mut ast, m, X, vec![in_init]);
    let second = statement(&mut ast, m, vec![x]);
    let after = ident(&mut ast, m, X);
    let third = statement(&mut ast, m, vec![after]);
    let body = block(&mut ast, m, vec![first, second, third]);
    let (item, _) = function_item(&mut ast, m, F, vec![body]);
    assert!(ast.set_items(m, vec![item]));
    let mut an = Analysis::new();
    assert!(resolve(&ast, &mut an, m, true));
    assert_eq!(an.res(before), Some(Res::Error));
    assert_eq!(an.res(in_init), Some(Res::Var(x)));
    assert_eq!(an.res(after), Some(Res::Var(x)));
    assert_eq!(unknown_values(&an), vec![before]);
}

#[test]
fn a_block_closes_its_scope() {
    let mut ast = Ast::new();
    let m = ast.add_module(false);
    let outer_x = var(&mut ast, m, X, vec![]);
    let outer_decl = statement(&mut ast, m, vec![outer_x]);
    let inner_x = var(&mut ast, m, X, vec![]);
    let inner_y = var(&mut ast, m, Y, vec![]);
    let inner_decl = statement(&mut ast, m, vec![inner_x, inner_y]);
    let inside = ident(&mut ast, m, X);
    let inner_use = statement(&mut ast, m, vec![inside]);
    let inner = block(&mut ast, m, vec![inner_decl, inner_use]);
    let after_x = ident(&mut ast, m, X);
    let after_y = ident(&mut ast, m, Y);
    let outer_use = statement(&mut ast, m, vec![after_x, after_y]);
    let body = block(&mut ast, m, vec![outer_decl, inner, outer_use]);
    let (item, _) = function_item(&mut ast, m, F, vec![body]);
    assert!(ast.set_items(m, vec![item]));
    let mut an = Analysis::new();
    assert!(resolve(&ast, &mut an, m, true));
    assert_eq!(an.res(inside), Some(Res::Var(inner_x)));
    assert_eq!(an.res(after_x), Some(Res::Var(outer_x)));
    assert_eq!(an.res(after_y), Some(Res::Error));
    assert_eq!(unknown_values(&an), vec![after_y]);
}

#[test]
fn loops_with_a_variable_and_try_parts_have_scopes_of_their_own() {
    let mut ast = Ast::new();
    let m = ast.add_module(false);
    let loop_var = var(&mut ast, m, X, vec![]);
    let in_loop = ident(&mut ast, m, X);
    let for_in = add(&mut ast, m, NodeKind::ForIn, vec![loop_var, in_loop]);
    let after_loop = ident(&mut ast, m, X);
    let caught = var(&mut ast, m, Y, vec![]);
    let in_try = ident(&mut ast, m, Y);
    let try_part = add(&mut ast, m, NodeKind::TryPart, vec![caught, in_try]);
    let after_try = ident(&mut ast, m, Y);
    let body = block(&mut ast, m, vec![for_in, after_loop, try_part, after_try]);
    let (item, _) = function_item(&mut ast, m, F, vec![body]);
    assert!(ast.set_items(m, vec![item]));
    let mut an = Analysis::new();
    assert!(resolve(&ast, &mut an, m, true));
    assert_eq!(an.res(in_loop), Some(Res::Var(loop_var)));
    assert_eq!(an.res(after_loop), Some(Res::Error));
    assert_eq!(an.res(in_try), Some(Res::Var(caught)));
    assert_eq!(an.res(after_try), Some(Res::Error));
    assert_eq!(unknown_values(&an), vec![after_loop, after_try]);
}

#[test]
fn parameters_and_type_parameters_are_visible_in_the_function_only() {
    let mut ast = Ast::new();
    let m = ast.add_module(false);
    let t = add(&mut ast, m, NodeKind::TypeParameter { name: T }, vec![]);
    let generics = add(&mut ast, m, NodeKind::Generics, vec![t]);
    let param_type = path(&mut ast, m, T);
    let param = var(&mut ast, m, X, vec![]);
    let use_param = ident(&mut ast, m, X);
    let use_self = ident(&mut ast, m, F);
    let body = block(&mut ast, m, vec![use_param, use_self]);
    let (f_item, f) = function_item(&mut ast, m, F, vec![generics, param_type, param, body]);
    let outside_type = path(&mut ast, m, T);
    let outside_param = ident(&mut ast, m, X);
    let g_body = block(&mut ast, m, vec![outside_type, outside_param]);
    let (g_item, _) = function_item(&mut ast, m, G, vec![g_body]);
    assert!(ast.set_items(m, vec![f_item, g_item]));
    let mut an = Analysis::new();
    assert!(resolve(&ast, &mut an, m, false));
    assert_eq!(an.res(param_type), None);
    assert!(resolve(&ast, &mut an, m, true));
    assert_eq!(an.res(param_type), Some(Res::TypeParameter(t)));
    assert_eq!(an.res(use_param), Some(Res::Var(param)));
    assert_eq!(an.res(use_self), Some(Res::Function(f)));
    assert_eq!(an.res(outside_type), Some(Res::Error));
    assert_eq!(an.res(outside_param), Some(Res::Error));
    assert_eq!(
        an.diagnostics(),
        &vec![Diagnostic::UnknownPath(outside_type), Diagnostic::UnknownValue(outside_param)]
    );
}

#[test]
fn a_local_function_is_visible_after_its_declaration() {
    let mut ast = Ast::new();
    let m = ast.add_module(false);
    let early = ident(&mut ast, m, G);
    let local = add(&mut ast, m, NodeKind::Function { name: FnName::Regular(G) }, vec![]);
    let late = ident(&mut ast, m, G);
    let body = block(&mut ast, m, vec![early, local, late]);
    let (item, _) = function_item(&mut ast, m, F, vec![body]);
    assert!(ast.set_items(m, vec![item]));
    let mut an = Analysis::new();
    assert!(resolve(&ast, &mut an, m, true));
    assert_eq!(an.res(early), Some(Res::Error));
    assert_eq!(an.res(late), Some(Res::Function(local)));
}

#[test]
fn a_class_body_sees_this_super_and_the_names_it_inherits() {
    let mut ast = Ast::new();
    let m = ast.add_module(false);
    let (base_x, _, x) = field(&mut ast, m, SYM_VOID, X);
    let base = plain_class(&mut ast, m, A, vec![base_x]);
    let extends = path(&mut ast, m, A);
    let uses: Vec<Node> = [SYM_THIS, SYM_SUPER, SYM_RUNTIME_TYPE, X, Y, G, SYM_NULL]
        .into_iter()
        .map(|s| ident(&mut ast, m, s))
        .collect();
    let body = block(&mut ast, m, uses.clone());
    let g = add(&mut ast, m, NodeKind::Function { name: FnName::Regular(G) }, vec![body]);
    let method = add(&mut ast, m, NodeKind::Member, vec![g]);
    let (own_y, _, y) = field(&mut ast, m, SYM_VOID, Y);
    let derived = add(
        &mut ast,
        m,
        NodeKind::Class { name: B, superclass: Some(extends), mixins: vec![], interfaces: vec![] },
        vec![extends, method, own_y],
    );
    let outside = ident(&mut ast, m, SYM_THIS);
    let outside_x = ident(&mut ast, m, X);
    let f_body = block(&mut ast, m, vec![outside, outside_x]);
    let (f_item, _) = function_item(&mut ast, m, F, vec![f_body]);
    assert!(ast.set_items(m, vec![base, derived, f_item]));
    let mut an = Analysis::new();
    assert!(resolve(&ast, &mut an, m, true));
    let expected = [
        Res::This,
        Res::Super,
        Res::RuntimeType,
        Res::Var(x),
        Res::Var(y),
        Res::Function(g),
        Res::Null,
    ];
    for (node, res) in uses.iter().zip(expected) {
        assert_eq!(an.res(*node), Some(res));
    }
    assert_eq!(an.res(outside), Some(Res::Error));
    assert_eq!(an.res(outside_x), Some(Res::Error));
    assert_eq!(unknown_values(&an), vec![outside, outside_x]);
}

#[test]
fn a_class_with_an_unknown_heritage_clause_is_reported_and_resolved_otherwise() {
    let mut ast = Ast::new();
    let m = ast.add_module(false);
    let extends = path(&mut ast, m, A);
    let use_y = ident(&mut ast, m, Y);
    let body = block(&mut ast, m, vec![use_y]);
    let g = add(&mut ast, m, NodeKind::Function { name: FnName::Regular(G) }, vec![body]);
    let method = add(&mut ast, m, NodeKind::Member, vec![g]);
    let (own_y, _, y) = field(&mut ast, m, SYM_VOID, Y);
    let class = add(
        &mut ast,
        m,
        NodeKind::Class { name: B, superclass: Some(extends), mixins: vec![], interfaces: vec![] },
        vec![extends, method, own_y],
    );
    assert!(ast.set_items(m, vec![class]));
    let mut an = Analysis::new();
    assert!(resolve(&ast, &mut an, m, true));
    assert_eq!(an.res(use_y), Some(Res::Var(y)));
    assert_eq!(an.res(extends), Some(Res::Error));
    assert_eq!(
        an.diagnostics(),
        &vec![Diagnostic::UnknownClass(extends), Diagnostic::UnknownPath(extends)]
    );
}

#[test]
fn a_path_with_a_unit_as_prefix_is_resolved_by_the_shallow_pass() {
    let mut ast = Ast::new();
    let lib = ast.add_module(false);
    let a = plain_class(&mut ast, lib, A, vec![]);
    assert!(ast.set_items(lib, vec![a]));
    let m = ast.add_module(false);
    let import = add(
        &mut ast,
        m,
        NodeKind::Import { module: lib, filters: vec![], alias: Some(ALIAS), deferred: false },
        vec![],
    );
    let prefix = path(&mut ast, m, ALIAS);
    let qualified = add(
        &mut ast,
        m,
        NodeKind::Qualified { name: A, prefix: Some(prefix), params: vec![] },
        vec![],
    );
    let missing_prefix = path(&mut ast, m, ALIAS);
    let missing = add(
        &mut ast,
        m,
        NodeKind::Qualified { name: B, prefix: Some(missing_prefix), params: vec![] },
        vec![],
    );
    let x = var(&mut ast, m, X, vec![]);
    let item = add(&mut ast, m, NodeKind::Item, vec![qualified, missing, x]);
    assert!(ast.set_items(m, vec![import, item]));
    let mut an = Analysis::new();
    assert!(resolve(&ast, &mut an, m, false));
    assert_eq!(an.res(prefix), Some(Res::Module(lib)));
    assert_eq!(an.res(qualified), Some(Res::Class(a)));
    assert_eq!(an.res(missing), None);
    assert!(an.diagnostics().is_empty());
    assert!(resolve(&ast, &mut an, m, true));
    assert_eq!(an.res(missing), Some(Res::Error));
    assert_eq!(an.diagnostics(), &vec![Diagnostic::UnknownPath(missing)]);
}

#[test]
fn a_path_with_a_class_as_prefix_is_resolved_by_the_full_pass_only() {
    let mut ast = Ast::new();
    let m = ast.add_module(false);
    let named = add(&mut ast, m, NodeKind::Constructor { name: Some(Z) }, vec![]);
    let a = plain_class(&mut ast, m, A, vec![named]);
    let prefix = path(&mut ast, m, A);
    let qualified = add(
        &mut ast,
        m,
        NodeKind::Qualified { name: Z, prefix: Some(prefix), params: vec![] },
        vec![],
    );
    let var_prefix = path(&mut ast, m, X);
    let of_var = add(
        &mut ast,
        m,
        NodeKind::Qualified { name: Z, prefix: Some(var_prefix), params: vec![] },
        vec![],
    );
    let x = var(&mut ast, m, X, vec![]);
    let item = add(&mut ast, m, NodeKind::Item, vec![qualified, of_var, x]);
    assert!(ast.set_items(m, vec![a, item]));
    let mut an = Analysis::new();
    assert!(resolve(&ast, &mut an, m, false));
    assert_eq!(an.res(prefix), Some(Res::Class(a)));
    assert_eq!(an.res(qualified), None);
    assert_eq!(an.res(var_prefix), Some(Res::Var(x)));
    assert_eq!(an.res(of_var), None);
    assert!(resolve(&ast, &mut an, m, true));
    assert_eq!(an.res(qualified), Some(Res::Constructor(named)));
    assert_eq!(an.res(of_var), Some(Res::Error));
    assert_eq!(an.diagnostics(), &vec![Diagnostic::UnknownPath(of_var)]);
}

#[test]
fn type_arguments_are_resolved_before_the_path_itself() {
    let mut ast = Ast::new();
    let m = ast.add_module(false);
    let a = plain_class(&mut ast, m, A, vec![]);
    let argument = path(&mut ast, m, A);
    let unknown = add(
        &mut ast,
        m,
        NodeKind::Qualified { name: B, prefix: None, params: vec![argument] },
        vec![],
    );
    let x = var(&mut ast, m, X, vec![]);
    let item = add(&mut ast, m, NodeKind::Item, vec![unknown, x]);
    assert!(ast.set_items(m, vec![a, item]));
    let mut an = Analysis::new();
    assert!(resolve(&ast, &mut an, m, false));
    assert_eq!(an.res(argument), Some(Res::Class(a)));
    assert_eq!(an.res(unknown), None);
}

#[test]
fn every_unit_imports_the_implicit_unit_but_that_unit_itself() {
    let mut ast = Ast::new();
    let base = ast.add_module(false);
    let int = plain_class(&mut ast, base, INT, vec![]);
    let own_use = path(&mut ast, base, INT);
    let own_var = var(&mut ast, base, Y, vec![]);
    let own_item = add(&mut ast, base, NodeKind::Item, vec![own_use, own_var]);
    assert!(ast.set_items(base, vec![int, own_item]));
    ast.set_base(base);
    let m = ast.add_module(false);
    let ty = path(&mut ast, m, INT);
    let x = var(&mut ast, m, X, vec![]);
    let item = add(&mut ast, m, NodeKind::Item, vec![ty, x]);
    assert!(ast.set_items(m, vec![item]));
    let mut an = Analysis::new();
    assert!(resolve(&ast, &mut an, m, false));
    assert_eq!(an.res(ty), Some(Res::Class(int)));
    assert!(matches!(an.module_table(base), Cached::Ready(_)));
    let mut own = Analysis::new();
    assert!(resolve(&ast, &mut own, base, true));
    assert_eq!(own.res(own_use), Some(Res::Class(int)));
    assert!(matches!(own.module_table(base), Cached::Absent));
}

#[test]
fn a_failed_import_stops_resolution_after_collecting() {
    let mut ast = Ast::new();
    let broken = ast.add_module(true);
    let m = ast.add_module(false);
    let import = add(
        &mut ast,
        m,
        NodeKind::Import { module: broken, filters: vec![], alias: None, deferred: false },
        vec![],
    );
    let a = plain_class(&mut ast, m, A, vec![]);
    let ty = path(&mut ast, m, A);
    let use_x = ident(&mut ast, m, X);
    let x = var(&mut ast, m, X, vec![use_x]);
    let item = add(&mut ast, m, NodeKind::Item, vec![ty, x]);
    assert!(ast.set_items(m, vec![import, a, item]));
    let mut an = Analysis::new();
    assert!(!resolve(&ast, &mut an, m, true));
    assert_eq!(an.res(ty), None);
    assert_eq!(an.res(use_x), None);
    assert!(an.diagnostics().is_empty());
    assert!(!resolve(&ast, &mut an, m, false));
    assert_eq!(an.res(ty), None);
}

#[test]
fn a_failed_implicit_unit_stops_resolution_too() {
    let mut ast = Ast::new();
    let base = ast.add_module(true);
    ast.set_base(base);
    let m = ast.add_module(false);
    let a = plain_class(&mut ast, m, A, vec![]);
    let ty = path(&mut ast, m, A);
    let item = add(&mut ast, m, NodeKind::Item, vec![ty]);
    assert!(ast.set_items(m, vec![a, item]));
    let mut an = Analysis::new();
    assert!(!resolve(&ast, &mut an, m, true));
    assert_eq!(an.res(ty), None);
    let mut own = Analysis::new();
    assert!(resolve(&ast, &mut own, base, true));
}

#[test]
fn a_deferred_import_leaves_its_names_unresolved() {
    let mut ast = Ast::new();
    let lib = ast.add_module(false);
    let a = plain_class(&mut ast, lib, A, vec![]);
    assert!(ast.set_items(lib, vec![a]));
    let m = ast.add_module(false);
    let import = add(
        &mut ast,
        m,
        NodeKind::Import { module: lib, filters: vec![], alias: Some(ALIAS), deferred: true },
        vec![],
    );
    let ty = path(&mut ast, m, A);
    let use_a = ident(&mut ast, m, A);
    let use_p = ident(&mut ast, m, ALIAS);
    let x = var(&mut ast, m, X, vec![use_a, use_p]);
    let item = add(&mut ast, m, NodeKind::Item, vec![ty, x]);
    assert!(ast.set_items(m, vec![import, item]));
    let mut an = Analysis::new();
    assert!(resolve(&ast, &mut an, m, true));
    assert_eq!(an.res(ty), Some(Res::Error));
    assert_eq!(an.res(use_a), Some(Res::Error));
    assert_eq!(an.res(use_p), Some(Res::Error));
    assert_eq!(an.diagnostics().len(), 3);
}

#[test]
fn names_of_a_part_are_resolved_with_the_unit() {
    let mut ast = Ast::new();
    let m = ast.add_module(false);
    let a = plain_class(&mut ast, m, A, vec![]);
    let use_b = path(&mut ast, m, B);
    let y = var(&mut ast, m, Y, vec![]);
    let part_item = add(&mut ast, m, NodeKind::Item, vec![use_b, y]);
    let part = add(&mut ast, m, NodeKind::Part, vec![a, part_item]);
    let b = plain_class(&mut ast, m, B, vec![]);
    let use_a = path(&mut ast, m, A);
    let use_y = ident(&mut ast, m, Y);
    let x = var(&mut ast, m, X, vec![use_y]);
    let item = add(&mut ast, m, NodeKind::Item, vec![use_a, x]);
    assert!(ast.set_items(m, vec![part, b, item]));
    let mut an = Analysis::new();
    assert!(resolve(&ast, &mut an, m, true));
    assert_eq!(an.res(use_a), Some(Res::Class(a)));
    assert_eq!(an.res(use_b), Some(Res::Class(b)));
    assert_eq!(an.res(use_y), Some(Res::Var(y)));
    assert!(an.diagnostics().is_empty());
}

#[test]
fn an_identifier_keeps_a_result_that_it_has() {
    let mut ast = Ast::new();
    let m = ast.add_module(false);
    let use_x = ident(&mut ast, m, X);
    let body = block(&mut ast, m, vec![use_x]);
    let (item, _) = function_item(&mut ast, m, F, vec![body]);
    assert!(ast.set_items(m, vec![item]));
    let mut an = Analysis::new();
    an.attach(use_x, Res::Extension(7));
    assert!(resolve(&ast, &mut an, m, true));
    assert_eq!(an.res(use_x), Some(Res::Extension(7)));
    assert!(an.diagnostics().is_empty());
    an.attach(use_x, Res::Null);
    assert_eq!(an.res(use_x), Some(Res::Extension(7)));
}

#[test]
fn resolving_one_identifier_raises_at_most_one_diagnostic() {
    let mut collector = Collector::new();
    collector.record(X, Res::Var(Node { index: 3 }));
    let mut an = Analysis::new();
    let known = Node { index: 10 };
    let unknown = Node { index: 11 };
    resolve_identifier(&collector, &mut an, known, X);
    assert_eq!(an.res(known), Some(Res::Var(Node { index: 3 })));
    assert!(an.diagnostics().is_empty());
    resolve_identifier(&collector, &mut an, unknown, Y);
    assert_eq!(an.res(unknown), Some(Res::Error));
    assert_eq!(an.diagnostics(), &vec![Diagnostic::UnknownValue(unknown)]);
}

#[test]
fn a_lexical_scope_is_closed_when_its_node_is_done() {
    let mut ast = Ast::new();
    let m = ast.add_module(false);
    let x = var(&mut ast, m, X, vec![]);
    let use_x = ident(&mut ast, m, X);
    let body = block(&mut ast, m, vec![x, use_x]);
    let mut an = Analysis::new();
    let mut resolver = Resolver { collector: Collector::new() };
    resolver.collector.record(Y, Res::Null);
    resolver.in_lexical_scope(&ast, &mut an, body, 0);
    assert_eq!(an.res(use_x), Some(Res::Var(x)));
    assert_eq!(resolver.collector.lookup(X), Res::Error);
    assert_eq!(resolver.collector.lookup(Y), Res::Null);
    assert_eq!(resolver.collector.scope().enclosing(), 0);
    resolver.visit(&ast, &mut an, x, 0);
    assert_eq!(resolver.collector.lookup(X), Res::Var(x));
}

#[test]
fn the_shallow_resolver_reads_the_scope_it_is_given() {
    let mut ast = Ast::new();
    let m = ast.add_module(false);
    let known = path(&mut ast, m, A);
    let unknown = path(&mut ast, m, B);
    let use_a = ident(&mut ast, m, A);
    let holder = statement(&mut ast, m, vec![known, unknown, use_a]);
    let mut collector = Collector::new();
    collector.record(A, Res::Class(Node { index: 40 }));
    let mut an = Analysis::new();
    let shallow = TopLevelResolver { collector: &collector };
    shallow.visit(&ast, &mut an, holder, 0);
    assert_eq!(an.res(known), Some(Res::Class(Node { index: 40 })));
    assert_eq!(an.res(unknown), None);
    assert_eq!(an.res(use_a), None);
    assert!(an.diagnostics().is_empty());
    an.attach(unknown, Res::Dynamic);
    shallow.resolve_qualified(&ast, &mut an, unknown, 0);
    assert_eq!(an.res(unknown), Some(Res::Dynamic));
}

#[test]
fn the_body_of_a_class_that_can_be_mixed_in_is_a_class_body_too() {
    let mut ast = Ast::new();
    let m = ast.add_module(false);
    let (base_x, _, x) = field(&mut ast, m, SYM_VOID, X);
    let base = plain_class(&mut ast, m, A, vec![base_x]);
    let with = path(&mut ast, m, A);
    let uses: Vec<Node> = [SYM_THIS, SYM_SUPER, SYM_RUNTIME_TYPE, X, Y]
        .into_iter()
        .map(|s| ident(&mut ast, m, s))
        .collect();
    let body = block(&mut ast, m, uses.clone());
    let g = add(&mut ast, m, NodeKind::Function { name: FnName::Regular(G) }, vec![body]);
    let method = add(&mut ast, m, NodeKind::Member, vec![g]);
    let (own_y, _, y) = field(&mut ast, m, SYM_VOID, Y);
    let mixin = add(
        &mut ast,
        m,
        NodeKind::MixinClass { name: B, mixins: vec![with], interfaces: vec![] },
        vec![with, method, own_y],
    );
    assert!(ast.set_items(m, vec![base, mixin]));
    let mut an = Analysis::new();
    assert!(resolve(&ast, &mut an, m, true));
    let expected = [Res::This, Res::Super, Res::RuntimeType, Res::Var(x), Res::Var(y)];
    for (node, res) in uses.iter().zip(expected) {
        assert_eq!(an.res(*node), Some(res));
    }
    assert!(an.diagnostics().is_empty());
}

#[test]
fn an_enum_body_has_a_scope_but_no_class_names() {
    let mut ast = Ast::new();
    let m = ast.add_module(false);
    let use_this = ident(&mut ast, m, SYM_THIS);
    let local = var(&mut ast, m, X, vec![]);
    let use_x = ident(&mut ast, m, X);
    let e = add(&mut ast, m, NodeKind::Enum { name: A }, vec![use_this, local, use_x]);
    let after = ident(&mut ast, m, X);
    let y = var(&mut ast, m, Y, vec![after]);
    let item = add(&mut ast, m, NodeKind::Item, vec![y]);
    assert!(ast.set_items(m, vec![e, item]));
    let mut an = Analysis::new();
    assert!(resolve(&ast, &mut an, m, true));
    assert_eq!(an.res(use_this), Some(Res::Error));
    assert_eq!(an.res(use_x), Some(Res::Var(local)));
    assert_eq!(an.res(after), Some(Res::Error));
}

#[test]
fn the_scope_of_a_unit_holds_built_in_imported_and_declared_names() {
    let mut ast = Ast::new();
    let base = ast.add_module(false);
    let int = plain_class(&mut ast, base, INT, vec![]);
    assert!(ast.set_items(base, vec![int]));
    ast.set_base(base);
    let m = ast.add_module(false);
    let a = plain_class(&mut ast, m, A, vec![]);
    let ty = path(&mut ast, m, A);
    let x = var(&mut ast, m, X, vec![]);
    let item = add(&mut ast, m, NodeKind::Item, vec![ty, x]);
    assert!(ast.set_items(m, vec![a, item]));
    let mut an = Analysis::new();
    let collector = name_resolve::shallow::collect_unit(&ast, &mut an, m, ast.nesting_limit());
    assert!(!collector.has_error());
    assert_eq!(collector.lookup(SYM_VOID), Res::Void);
    assert_eq!(collector.lookup(INT), Res::Class(int));
    assert_eq!(collector.lookup(A), Res::Class(a));
    assert_eq!(collector.lookup(X), Res::Var(x));
    assert_eq!(collector.scope().enclosing(), 0);
    assert_eq!(an.res(ty), None);
    let collector = name_resolve::shallow::resolve_types(&ast, &mut an, m, ast.nesting_limit());
    assert_eq!(collector.lookup(A), Res::Class(a));
    assert_eq!(an.res(ty), Some(Res::Class(a)));
}

#[test]
fn a_member_of_a_unit_is_looked_up_in_its_export_table() {
    let mut ast = Ast::new();
    let m = ast.add_module(false);
    let a = plain_class(&mut ast, m, A, vec![]);
    assert!(ast.set_items(m, vec![a]));
    let mut an = Analysis::new();
    assert_eq!(name_resolve::shallow::module_member(m, &ast, &mut an, A, 1), Res::Class(a));
    assert_eq!(name_resolve::shallow::module_member(m, &ast, &mut an, B, 0), Res::Error);
    assert!(an.diagnostics().is_empty());
}

#[test]
fn the_scope_of_a_class_body_is_filled_in_order() {
    let mut ast = Ast::new();
    let m = ast.add_module(false);
    let (base_x, _, _) = field(&mut ast, m, SYM_VOID, X);
    let (base_y, _, base_y_var) = field(&mut ast, m, SYM_VOID, Y);
    let base = plain_class(&mut ast, m, A, vec![base_x, base_y]);
    let extends = path(&mut ast, m, A);
    let (own_x, _, own_x_var) = field(&mut ast, m, SYM_VOID, X);
    let class = add(
        &mut ast,
        m,
        NodeKind::Class { name: B, superclass: Some(extends), mixins: vec![], interfaces: vec![] },
        vec![extends, own_x],
    );
    assert!(ast.set_items(m, vec![base, class]));
    let mut an = Analysis::new();
    let collector = name_resolve::shallow::collect_unit(&ast, &mut an, m, ast.nesting_limit());
    let mut resolver = Resolver { collector };
    resolver.collector.enter();
    resolver.class_scope(&ast, &mut an, class, ast.nesting_limit());
    assert_eq!(resolver.collector.scope().enclosing(), 1);
    assert_eq!(resolver.collector.lookup(SYM_THIS), Res::This);
    assert_eq!(resolver.collector.lookup(X), Res::Var(own_x_var));
    assert_eq!(resolver.collector.lookup(Y), Res::Var(base_y_var));
    assert!(resolver.collector.scope().binds_locally(Y));
    assert_eq!(an.res(extends), Some(Res::Class(base)));
    resolver.collector.leave();
    resolver.resolve_item(&ast, &mut an, class, ast.nesting_limit());
    assert_eq!(resolver.collector.lookup(SYM_THIS), Res::Error);
    assert_eq!(resolver.collector.scope().enclosing(), 0);
}

#[test]
fn inside_a_getter_its_name_denotes_the_getter_even_if_a_setter_follows() {
    let mut ast = Ast::new();
    let m = ast.add_module(false);
    let in_getter = ident(&mut ast, m, X);
    let getter_body = block(&mut ast, m, vec![in_getter]);
    let getter =
        add(&mut ast, m, NodeKind::Function { name: FnName::Getter(X) }, vec![getter_body]);
    let first = add(&mut ast, m, NodeKind::Item, vec![getter]);
    let in_setter = ident(&mut ast, m, X);
    let setter_body = block(&mut ast, m, vec![in_setter]);
    let setter =
        add(&mut ast, m, NodeKind::Function { name: FnName::Setter(X) }, vec![setter_body]);
    let second = add(&mut ast, m, NodeKind::Item, vec![setter]);
    let elsewhere = ident(&mut ast, m, X);
    let y = var(&mut ast, m, Y, vec![elsewhere]);
    let third = add(&mut ast, m, NodeKind::Item, vec![y]);
    assert!(ast.set_items(m, vec![third, first, second]));
    let mut an = Analysis::new();
    assert!(resolve(&ast, &mut an, m, true));
    assert_eq!(an.res(in_getter), Some(Res::Getter(getter)));
    assert_eq!(an.res(in_setter), Some(Res::Setter(setter)));
    assert_eq!(an.res(elsewhere), Some(Res::Setter(setter)));
}

#[test]
fn resolving_a_unit_that_is_not_there_does_nothing() {
    let mut ast = Ast::new();
    let m = ast.add_module(false);
    let use_x = ident(&mut ast, m, X);
    let item = add(&mut ast, m, NodeKind::Item, vec![use_x]);
    assert!(ast.set_items(m, vec![item]));
    let mut an = Analysis::new();
    assert!(resolve(&ast, &mut an, Module { index: 9 }, true));
    assert_eq!(an.res(use_x), None);
    assert!(an.diagnostics().is_empty());
}

#[test]
fn an_empty_unit_resolves_without_a_trace() {
    let mut ast = Ast::new();
    let m = ast.add_module(false);
    let mut an = Analysis::new();
    assert!(resolve(&ast, &mut an, m, true));
    assert!(an.diagnostics().is_empty());
    assert!(matches!(an.module_table(m), Cached::Absent));
}

/// `class A { x }  class M { y }  class I { z }  class B extends A with M implements I { w }`,
/// where the children of each class are its members only.
fn classes_with_members_only(ast: &mut Ast) -> (Module, [Node; 4], [Node; 3]) {
    let m = ast.add_module(false);
    let (field_x, _, _) = field(ast, m, SYM_VOID, X);
    let a = plain_class(ast, m, A, vec![field_x]);
    let (field_y, _, _) = field(ast, m, SYM_VOID, Y);
    let mixed = plain_class(ast, m, F, vec![field_y]);
    let (field_z, _, _) = field(ast, m, SYM_VOID, Z);
    let interface = plain_class(ast, m, G, vec![field_z]);
    let extends = path(ast, m, A);
    let with = path(ast, m, F);
    let implements = path(ast, m, G);
    let (field_w, _, _) = field(ast, m, SYM_VOID, T);
    let b = add(
        ast,
        m,
        NodeKind::Class {
            name: B,
            superclass: Some(extends),
            mixins: vec![with],
            interfaces: vec![implements],
        },
        vec![field_w],
    );
    assert!(ast.set_items(m, vec![b, a, mixed, interface]));
    (m, [a, mixed, interface, b], [extends, with, implements])
}

#[test]
fn heritage_clauses_are_resolved_even_if_they_are_not_among_the_children() {
    let mut ast = Ast::new();
    let (m, [a, mixed, interface, _], [extends, with, implements]) =
        classes_with_members_only(&mut ast);
    let mut an = Analysis::new();
    assert!(resolve(&ast, &mut an, m, false));
    assert_eq!(an.res(extends), Some(Res::Class(a)));
    assert_eq!(an.res(with), Some(Res::Class(mixed)));
    assert_eq!(an.res(implements), Some(Res::Class(interface)));
    assert!(an.diagnostics().is_empty());
}

#[test]
fn a_table_asked_for_first_finds_clauses_that_are_not_among_the_children() {
    let mut ast = Ast::new();
    let (_, [a, _, _, b], [extends, _, _]) = classes_with_members_only(&mut ast);
    let mut an = Analysis::new();
    let table = b.exports(&ast, &mut an).unwrap();
    assert_eq!(an.res(extends), Some(Res::Class(a)));
    assert_eq!(table.enclosing(), 1);
    for name in [X, Y, Z, T] {
        assert!(matches!(table.lookup(name), Res::Var(_)));
    }
    assert!(!table.binds_locally(X));
    assert!(table.binds_locally(Y));
    assert!(an.diagnostics().is_empty());
}

#[test]
fn the_full_pass_gives_every_heritage_clause_a_result() {
    let mut ast = Ast::new();
    let m = ast.add_module(false);
    let known = plain_class(&mut ast, m, A, vec![]);
    let extends = path(&mut ast, m, A);
    let argument = path(&mut ast, m, A);
    let with = add(
        &mut ast,
        m,
        NodeKind::Qualified { name: X, prefix: None, params: vec![argument] },
        vec![],
    );
    let implements = path(&mut ast, m, Y);
    let class = add(
        &mut ast,
        m,
        NodeKind::Class {
            name: B,
            superclass: Some(extends),
            mixins: vec![with],
            interfaces: vec![implements],
        },
        vec![],
    );
    assert!(ast.set_items(m, vec![known, class]));
    let mut an = Analysis::new();
    assert!(resolve(&ast, &mut an, m, false));
    assert_eq!(an.res(extends), Some(Res::Class(known)));
    assert_eq!(an.res(argument), Some(Res::Class(known)));
    assert_eq!(an.res(with), None);
    assert_eq!(an.res(implements), None);
    assert!(an.diagnostics().is_empty());
    assert!(resolve(&ast, &mut an, m, true));
    assert_eq!(an.res(extends), Some(Res::Class(known)));
    assert_eq!(an.res(with), Some(Res::Error));
    assert_eq!(an.res(implements), Some(Res::Error));
    assert_eq!(
        an.diagnostics(),
        &vec![
            Diagnostic::UnknownClass(with),
            Diagnostic::UnknownClass(implements),
            Diagnostic::UnknownPath(with),
            Diagnostic::UnknownPath(implements),
        ]
    );
}

#[test]
fn the_shallow_resolver_resolves_the_clauses_of_a_class_it_comes_to() {
    let mut ast = Ast::new();
    let m = ast.add_module(false);
    let extends = path(&mut ast, m, A);
    let class = add(
        &mut ast,
        m,
        NodeKind::Class { name: B, superclass: Some(extends), mixins: vec![], interfaces: vec![] },
        vec![],
    );
    let holder = statement(&mut ast, m, vec![class]);
    let mut collector = Collector::new();
    collector.record(A, Res::Class(Node { index: 70 }));
    let mut an = Analysis::new();
    name_resolve::shallow::shallow_heritage(collector.scope(), &ast, &mut an, holder, 0);
    assert_eq!(an.res(extends), None);
    let shallow = TopLevelResolver { collector: &collector };
    shallow.visit(&ast, &mut an, holder, 0);
    assert_eq!(an.res(extends), Some(Res::Class(Node { index: 70 })));
}

#[test]
fn the_clauses_of_a_class_in_a_part_are_resolved_with_the_unit() {
    let mut ast = Ast::new();
    let m = ast.add_module(false);
    let (field_x, _, x) = field(&mut ast, m, SYM_VOID, X);
    let a = plain_class(&mut ast, m, A, vec![field_x]);
    let extends = path(&mut ast, m, A);
    let b = add(
        &mut ast,
        m,
        NodeKind::Class { name: B, superclass: Some(extends), mixins: vec![], interfaces: vec![] },
        vec![],
    );
    let part = add(&mut ast, m, NodeKind::Part, vec![b]);
    assert!(ast.set_items(m, vec![part, a]));
    let mut an = Analysis::new();
    let table = b.exports(&ast, &mut an).unwrap();
    assert_eq!(an.res(extends), Some(Res::Class(a)));
    assert_eq!(table.lookup(X), Res::Var(x));
    let mut fresh = Analysis::new();
    assert!(resolve(&ast, &mut fresh, m, false));
    assert_eq!(fresh.res(extends), Some(Res::Class(a)));
}
