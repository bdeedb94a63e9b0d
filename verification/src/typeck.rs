//! The type checker: name resolution, constant evaluation, interface and
//! impl checking, and expression typing over a parsed program.

use vstd::prelude::*;
use vstd::arithmetic::power2::pow2;
use crate::ast::{
    arg_text, arg_text_with, args_text, args_text_with, const_binop_name, const_text,
    const_text_with, ty_text, ty_text_with, tys_text, tys_text_with,
    join_segments, path_name, synthetic_path, width_bits, int_ty_name, AssocConstImpl,
    AssocConstSig, Block, BinaryOp, ConstBinaryOp, ConstExpr, ConstExprKind, ConstItem,
    ConstUnaryOp, EnumCtorArgs, EnumCtorArgsKind, EnumItem, EnumPatArgsKind, Expr, ExprKind,
    Field, FnItem, GenericArg, GenericArgKind, GenericParam, GenericParamKind, ImplItem,
    ImplMemberKind, IntTy, InterfaceItem, Item, InterfaceMemberKind, InterfaceRef, InterfaceRefKind,
    ItemKind, MatchArm, MethodDef, MethodSig, Mutability, Pat, PatKind, Path, PathKind, Program,
    ReceiverKind, Signedness, StmtKind, StructItem, Ty, TyKind, UnaryOp, VariantPayloadKind,
    WherePredicate, WherePredicateKind,
};
use crate::diagnostic::Diagnostic;
use crate::num::{
    IntValue, int_add, int_bitand, int_bitor, int_bitxor, int_div, int_eq, int_le, int_mul,
    int_rem, int_shl, int_shr, int_sub, int_to_string, int_to_usize, bitwise, trunc_div,
    trunc_rem, BitOp,
};
use crate::span::{Node, Span};
use crate::text::{owned, push_str, push_string, push_usize, int_decimal};

verus! {

/// The errors as spans and message texts.
pub open spec fn errors_view(errors: Seq<(Span, String)>) -> Seq<(Span, Seq<char>)> {
    errors.map_values(|e: (Span, String)| (e.0, e.1@))
}

/// A constant whose expression is closed and has a value.
pub open spec fn valued_const(c: ConstItem) -> bool {
    closed_const(c.kind.expr) && const_value(c.kind.expr) is Some
}

/// A constant whose expression is closed and has a value that does not
/// fit the constant's type.
pub open spec fn overflowing_const(c: ConstItem) -> bool {
    valued_const(c) && !fits_spec(const_value(c.kind.expr)->0, c.kind.ty)
}

/// The error for the constant `name` whose value does not fit its type.
pub open spec fn const_fit_error(name: Seq<char>, c: ConstItem) -> (Span, Seq<char>) {
    (c.kind.expr.span, "const `"@ + name + "` value `"@ + int_decimal(const_value(c.kind.expr)->0)
        + "` does not fit in "@ + int_ty_name(c.kind.ty))
}

/// Whether one of the errors is `e`.
pub open spec fn reported(errors: Seq<(Span, String)>, e: (Span, Seq<char>)) -> bool {
    exists|k: int| 0 <= k < errors.len() && (errors[k].0, errors[k].1@) == e
}

/// Every error of `before` is still in `after`, at the same place: the
/// checker adds errors and never takes one back.
pub open spec fn errors_kept(before: Seq<(Span, String)>, after: Seq<(Span, String)>) -> bool {
    &&& before.len() <= after.len()
    &&& forall|k: int| 0 <= k < before.len() ==> #[trigger] after[k] == before[k]
}

/// An error reported in the later part of a report is in the whole report.
proof fn lemma_reported_append(a: Seq<(Span, String)>, b: Seq<(Span, String)>, e: (Span, Seq<char>))
    requires
        reported(b, e),
    ensures
        reported(a + b, e),
{
    let k = choose|k: int| 0 <= k < b.len() && (b[k].0, b[k].1@) == e;
    assert((a + b)[a.len() + k] == b[k]);
}

/// Whether the constants that the program's constant table keeps, and
/// whose values do not fit their types, are all reported.
pub open spec fn overflows_reported(items: Seq<Item>, errors: Seq<(Span, String)>) -> bool {
    forall|j: int| 0 <= j < items.len() ==> ((#[trigger] items[j]).kind matches ItemKind::Const(c)
        ==> ((last_const_index(items, items.len() as int, c.kind.name@) == Some(j) && overflowing_const(c))
            ==> reported(errors, const_fit_error(c.kind.name@, c))))
}

/// An error once reported stays reported.
proof fn lemma_reported_kept(a: Seq<(Span, String)>, b: Seq<(Span, String)>, e: (Span, Seq<char>))
    requires
        errors_kept(a, b),
        reported(a, e),
    ensures
        reported(b, e),
{
    let k = choose|k: int| 0 <= k < a.len() && (a[k].0, a[k].1@) == e;
    assert(b[k] == a[k]);
}

/// The name a generic parameter declares.
pub open spec fn generic_param_name(g: GenericParam) -> Seq<char> {
    match g.kind {
        GenericParamKind::Type { name, .. } => name@,
        GenericParamKind::Const { name, .. } => name@,
    }
}

/// The errors for the first `n` named entries: one for each entry whose name
/// an earlier entry already has, at its span, in order; the message is
/// `prefix`, the name and a closing backquote.
pub open spec fn duplicate_errors(entries: Seq<(Span, Seq<char>)>, n: int, prefix: Seq<char>) -> Seq<(Span, Seq<char>)>
    decreases n,
{
    if n <= 0 {
        Seq::empty()
    } else {
        let earlier = duplicate_errors(entries, n - 1, prefix);
        if exists|j: int| 0 <= j < n - 1 && #[trigger] entries[j].1 == entries[n - 1].1 {
            earlier.push((entries[n - 1].0, prefix + entries[n - 1].1 + "`"@))
        } else {
            earlier
        }
    }
}

/// The name space an item declares a name in: constants, types (structs
/// and enums), interfaces and functions; `use` and `impl` items declare
/// none.
pub open spec fn item_space(item: Item) -> int {
    match item.kind {
        ItemKind::Const(_) => 0,
        ItemKind::Struct(_) | ItemKind::Enum(_) => 1,
        ItemKind::Interface(_) => 2,
        ItemKind::Fn(_) => 3,
        ItemKind::Use(_) | ItemKind::Impl(_) => -1,
    }
}

/// The name an item declares.
pub open spec fn item_declared_name(item: Item) -> Seq<char> {
    match item.kind {
        ItemKind::Const(c) => c.kind.name@,
        ItemKind::Struct(s) => s.kind.name@,
        ItemKind::Enum(e) => e.kind.name@,
        ItemKind::Interface(i) => i.kind.name@,
        ItemKind::Fn(f) => f.kind.name@,
        ItemKind::Use(_) | ItemKind::Impl(_) => Seq::empty(),
    }
}

/// The span a duplicate declaration is reported at: that of the item's
/// own node.
pub open spec fn item_decl_span(item: Item) -> Span {
    match item.kind {
        ItemKind::Const(c) => c.span,
        ItemKind::Struct(s) => s.span,
        ItemKind::Enum(e) => e.span,
        ItemKind::Interface(i) => i.span,
        ItemKind::Fn(f) => f.span,
        ItemKind::Use(u) => u.span,
        ItemKind::Impl(i) => i.span,
    }
}

/// How a duplicate in the item's name space is reported.
pub open spec fn duplicate_prefix(item: Item) -> Seq<char> {
    match item.kind {
        ItemKind::Const(_) => "duplicate const `"@,
        ItemKind::Struct(_) | ItemKind::Enum(_) => "duplicate type `"@,
        ItemKind::Interface(_) => "duplicate interface `"@,
        _ => "duplicate function `"@,
    }
}

/// Whether one of the first `i` items declares `name` in name space
/// `space`.
pub open spec fn declared_before(items: Seq<Item>, i: int, space: int, name: Seq<char>) -> bool {
    exists|j: int| 0 <= j < i && #[trigger] item_space(items[j]) == space && item_declared_name(items[j]) == name
}

/// The errors from collecting the first `n` items: one for each item that
/// declares a name an earlier item declared in the same name space, in item
/// order.
pub open spec fn collection_errors(items: Seq<Item>, n: int) -> Seq<(Span, Seq<char>)>
    decreases n,
{
    if n <= 0 {
        Seq::empty()
    } else {
        let item = items[n - 1];
        let earlier = collection_errors(items, n - 1);
        if item_space(item) >= 0 && declared_before(items, n - 1, item_space(item), item_declared_name(item)) {
            earlier.push((item_decl_span(item), duplicate_prefix(item) + item_declared_name(item) + "`"@))
        } else {
            earlier
        }
    }
}

/// The index of the last of the first `i` items that is an enum named `n`,
/// if any: the declaration the checker's enum table keeps.
pub open spec fn last_enum_index(items: Seq<Item>, i: int, n: Seq<char>) -> Option<int>
    decreases i,
{
    if i <= 0 {
        None
    } else if items[i - 1].kind matches ItemKind::Enum(e) && e.kind.name@ == n {
        Some(i - 1)
    } else {
        last_enum_index(items, i - 1, n)
    }
}

/// Whether the enum table holds, for each name, the last enum declaration
/// of that name among the first `i` items.
pub open spec fn enum_table_of(table: Seq<(String, &EnumItem)>, items: Seq<Item>, i: int) -> bool {
    forall|n: Seq<char>| match #[trigger] last_enum_index(items, i, n) {
        Some(j) => table_lookup(table, n) matches Some(e) && items[j].kind == ItemKind::Enum(*e),
        None => table_lookup(table, n) is None,
    }
}

/// The index of the last of the first `i` items that is a constant named
/// `n`, if any: the declaration the checker's constant table keeps.
pub open spec fn last_const_index(items: Seq<Item>, i: int, n: Seq<char>) -> Option<int>
    decreases i,
{
    if i <= 0 {
        None
    } else if items[i - 1].kind matches ItemKind::Const(c) && c.kind.name@ == n {
        Some(i - 1)
    } else {
        last_const_index(items, i - 1, n)
    }
}

/// Whether the constant table holds, for each name, the last constant
/// declaration of that name among the first `i` items.
pub open spec fn const_table_of(table: Seq<(String, &ConstItem)>, items: Seq<Item>, i: int) -> bool {
    forall|n: Seq<char>| match #[trigger] last_const_index(items, i, n) {
        Some(j) => table_lookup(table, n) matches Some(c) && items[j].kind == ItemKind::Const(*c),
        None => table_lookup(table, n) is None,
    }
}

/// The index of the last of the first `i` items that is a function named
/// `n`, if any: the declaration the checker's function table keeps.
pub open spec fn last_fn_index(items: Seq<Item>, i: int, n: Seq<char>) -> Option<int>
    decreases i,
{
    if i <= 0 {
        None
    } else if items[i - 1].kind matches ItemKind::Fn(f) && f.kind.name@ == n {
        Some(i - 1)
    } else {
        last_fn_index(items, i - 1, n)
    }
}

/// Whether the function table holds, for each name, the last function
/// declaration of that name among the first `i` items.
pub open spec fn fn_table_of(table: Seq<(String, &FnItem)>, items: Seq<Item>, i: int) -> bool {
    forall|n: Seq<char>| match #[trigger] last_fn_index(items, i, n) {
        Some(j) => table_lookup(table, n) matches Some(f) && items[j].kind == ItemKind::Fn(*f),
        None => table_lookup(table, n) is None,
    }
}

/// The index of the last of the first `i` items that is an interface named
/// `n`, if any: the declaration the checker's interface table keeps.
pub open spec fn last_interface_index(items: Seq<Item>, i: int, n: Seq<char>) -> Option<int>
    decreases i,
{
    if i <= 0 {
        None
    } else if items[i - 1].kind matches ItemKind::Interface(f) && f.kind.name@ == n {
        Some(i - 1)
    } else {
        last_interface_index(items, i - 1, n)
    }
}

/// Whether the interface table holds, for each name, the last interface
/// declaration of that name among the first `i` items.
pub open spec fn interface_table_of(table: Seq<(String, &InterfaceItem)>, items: Seq<Item>, i: int) -> bool {
    forall|n: Seq<char>| match #[trigger] last_interface_index(items, i, n) {
        Some(j) => table_lookup(table, n) matches Some(f) && items[j].kind == ItemKind::Interface(*f),
        None => table_lookup(table, n) is None,
    }
}

/// The error for a type, at `span`, that names the interface `name` where
/// a value type is expected.
pub open spec fn interface_value_error(span: Span, name: Seq<char>) -> (Span, Seq<char>) {
    (span, "interface `"@ + name + "` is not a value type; use a generic bound instead"@)
}

/// Whether parameter `k` of `f`, if its type is a path naming an interface
/// that `is_interface` holds of and that no type parameter of `f` shadows,
/// is reported as no value type.
pub open spec fn interface_param_reported(f: FnItem, k: int, is_interface: spec_fn(Seq<char>) -> bool,
    errors: Seq<(Span, String)>) -> bool
{
    let ty = f.kind.params@[k].kind.ty;
    ty.kind matches TyKind::Path { path, .. } ==> {
        let name = join_segments(path.kind.segment_views());
        (!type_param_named(f.kind.generics@, name) && is_interface(name))
            ==> reported(errors, interface_value_error(ty.span, name))
    }
}

/// Whether every parameter of `f` typed by an interface is reported.
pub open spec fn interface_params_reported(f: FnItem, is_interface: spec_fn(Seq<char>) -> bool,
    errors: Seq<(Span, String)>) -> bool
{
    forall|k: int| 0 <= k < f.kind.params@.len() ==> #[trigger] interface_param_reported(f, k, is_interface, errors)
}

/// Whether the program's items declare an interface named `n`.
pub open spec fn declares_interface(items: Seq<Item>, n: Seq<char>) -> bool {
    declared_before(items, items.len() as int, 2, n)
}

/// Whether each function that the program's function table keeps has
/// every parameter typed by one of the program's interfaces reported.
pub open spec fn interface_params_rejected(items: Seq<Item>, errors: Seq<(Span, String)>) -> bool {
    forall|j: int| 0 <= j < items.len() ==> ((#[trigger] items[j]).kind matches ItemKind::Fn(f)
        ==> (last_fn_index(items, items.len() as int, f.kind.name@) == Some(j)
            ==> interface_params_reported(f, |n: Seq<char>| declares_interface(items, n), errors)))
}

/// Whether a function whose body is only a `match` on a parameter leaving a
/// variant of an enum of `enums` unmatched has a not-exhaustive diagnostic.
pub open spec fn fn_match_diagnosed(enums: Seq<(String, &EnumItem)>, f: FnItem, diagnostics: Seq<Diagnostic>) -> bool {
    fn_match_unmatched(enums, f) ==> exists|v: Seq<char>| #[trigger] diagnosed(diagnostics, not_exhaustive_error(body_match_span(f), v))
}

/// Whether one of the diagnostics is the error `e`.
pub open spec fn diagnosed(diagnostics: Seq<Diagnostic>, e: (Span, Seq<char>)) -> bool {
    exists|d: int| 0 <= d < diagnostics.len() && (#[trigger] diagnostics[d]).span == e.0 && diagnostics[d].message@ == e.1
}

/// Whether parameter `k` of `f`, if its type is a path naming an interface
/// that the program declares and that no type parameter of `f` shadows,
/// is diagnosed as no value type.
pub open spec fn interface_param_diagnosed(items: Seq<Item>, f: FnItem, k: int, diagnostics: Seq<Diagnostic>) -> bool {
    let ty = f.kind.params@[k].kind.ty;
    ty.kind matches TyKind::Path { path, .. } ==> {
        let name = join_segments(path.kind.segment_views());
        (!type_param_named(f.kind.generics@, name) && declares_interface(items, name))
            ==> diagnosed(diagnostics, interface_value_error(ty.span, name))
    }
}

/// Reports stay reports as errors are added.
proof fn lemma_interface_params_kept(f: FnItem, is_interface: spec_fn(Seq<char>) -> bool,
    a: Seq<(Span, String)>, b: Seq<(Span, String)>)
    requires
        errors_kept(a, b),
        interface_params_reported(f, is_interface, a),
    ensures
        interface_params_reported(f, is_interface, b),
{
    assert forall|k: int| 0 <= k < f.kind.params@.len() implies
        #[trigger] interface_param_reported(f, k, is_interface, b) by {
        assert(interface_param_reported(f, k, is_interface, a));
        let ty = f.kind.params@[k].kind.ty;
        if let TyKind::Path { path, .. } = ty.kind {
            let name = join_segments(path.kind.segment_views());
            if !type_param_named(f.kind.generics@, name) && is_interface(name) {
                lemma_reported_kept(a, b, interface_value_error(ty.span, name));
            }
        }
    }
}

/// Reports in the later part of a report are in the whole report.
proof fn lemma_interface_params_append(f: FnItem, is_interface: spec_fn(Seq<char>) -> bool,
    a: Seq<(Span, String)>, b: Seq<(Span, String)>)
    requires
        interface_params_reported(f, is_interface, b),
    ensures
        interface_params_reported(f, is_interface, a + b),
{
    assert forall|k: int| 0 <= k < f.kind.params@.len() implies
        #[trigger] interface_param_reported(f, k, is_interface, a + b) by {
        assert(interface_param_reported(f, k, is_interface, b));
        let ty = f.kind.params@[k].kind.ty;
        if let TyKind::Path { path, .. } = ty.kind {
            let name = join_segments(path.kind.segment_views());
            if !type_param_named(f.kind.generics@, name) && is_interface(name) {
                lemma_reported_append(a, b, interface_value_error(ty.span, name));
            }
        }
    }
}

/// The name an interface reference names.
pub open spec fn ref_name(r: InterfaceRef) -> Seq<char> {
    join_segments(r.kind.path.kind.segment_views())
}

/// Whether the interface the table keeps under `a` lists a superinterface
/// named `b`.
pub open spec fn inherits(table: Seq<(String, &InterfaceItem)>, a: Seq<char>, b: Seq<char>) -> bool {
    table_lookup(table, a) matches Some(item) && exists|i: int| 0 <= i < item.kind.super_interfaces@.len()
        && ref_name(#[trigger] item.kind.super_interfaces@[i]) == b
}

/// Whether each name of `q` inherits from the next one.
pub open spec fn inherits_along(table: Seq<(String, &InterfaceItem)>, q: Seq<Seq<char>>) -> bool {
    forall|i: int| 0 <= i < q.len() - 1 ==> #[trigger] inherits(table, q[i], q[i + 1])
}

/// The error for an inheritance cycle through the interface `name`.
pub open spec fn cycle_message(name: Seq<char>) -> Seq<char> {
    "interface inheritance cycle involving `"@ + name + "`"@
}

/// Whether an inheritance cycle through `name` is reported.
pub open spec fn cycle_reported(errors: Seq<(Span, String)>, name: Seq<char>) -> bool {
    exists|k: int| 0 <= k < errors.len() && errors[k].1@ == cycle_message(name)
}

/// Whether the program's interface `a`, as its last declaration of that
/// name has it, lists a superinterface named `b`.
pub open spec fn program_inherits(items: Seq<Item>, a: Seq<char>, b: Seq<char>) -> bool {
    last_interface_index(items, items.len() as int, a) matches Some(j)
        && items[j].kind matches ItemKind::Interface(it)
        && exists|i: int| 0 <= i < it.kind.super_interfaces@.len()
            && ref_name(#[trigger] it.kind.super_interfaces@[i]) == b
}

/// Whether each name of `w` inherits, in the program, from the next one.
pub open spec fn inheritance_walk(items: Seq<Item>, w: Seq<Seq<char>>) -> bool {
    forall|i: int| 0 <= i < w.len() - 1 ==> #[trigger] program_inherits(items, w[i], w[i + 1])
}

/// Whether every interface on an inheritance cycle of the program has the
/// cycle reported.
pub open spec fn inheritance_cycles_reported(items: Seq<Item>, errors: Seq<(Span, String)>) -> bool {
    forall|w: Seq<Seq<char>>| w.len() >= 2 && #[trigger] inheritance_walk(items, w) && w[0] == w.last()
        ==> cycle_reported(errors, w[0])
}

/// The last interface of a name is an interface of that name.
proof fn lemma_last_interface_index(items: Seq<Item>, i: int, n: Seq<char>)
    requires
        i <= items.len(),
    ensures
        last_interface_index(items, i, n) matches Some(j) ==> (0 <= j < i
            && (items[j].kind matches ItemKind::Interface(f) && f.kind.name@ == n)),
    decreases i,
{
    if i > 0 {
        lemma_last_interface_index(items, i - 1, n);
    }
}

/// The last constant declaration found is one, and has the name.
proof fn lemma_last_const_index(items: Seq<Item>, i: int, n: Seq<char>)
    requires
        i <= items.len(),
    ensures
        last_const_index(items, i, n) matches Some(j) ==> (0 <= j < i
            && (items[j].kind matches ItemKind::Const(c) && c.kind.name@ == n)),
    decreases i,
{
    if i > 0 {
        lemma_last_const_index(items, i - 1, n);
    }
}

/// Distinct names of a table are at most as many as its entries.
proof fn lemma_distinct_names_bound<T>(table: Seq<(String, T)>, names: Seq<Seq<char>>)
    requires
        names.no_duplicates(),
        forall|i: int| 0 <= i < names.len() ==> table_has(table, #[trigger] names[i]),
    ensures
        names.len() <= table.len(),
{
    let keys = table.map_values(|e: (String, T)| e.0@);
    names.unique_seq_to_set();
    assert forall|n: Seq<char>| #[trigger] names.to_set().contains(n) implies keys.to_set().contains(n) by {
        let i = choose|i: int| 0 <= i < names.len() && names[i] == n;
        assert(table_has(table, names[i]));
        let k = choose|k: int| 0 <= k < table.len() && table[k].0@ == n;
        assert(keys[k] == n);
    }
    vstd::seq_lib::seq_to_set_is_finite(keys);
    vstd::set_lib::lemma_len_subset(names.to_set(), keys.to_set());
    keys.lemma_cardinality_of_set();
}

/// Whether a walk along inheritance leads from the interface `a` to `b`
/// (every interface reaches itself).
pub open spec fn reaches(table: Seq<(String, &InterfaceItem)>, a: Seq<char>, b: Seq<char>) -> bool {
    exists|q: Seq<Seq<char>>| q.len() >= 1 && q[0] == a && q.last() == b && #[trigger] inherits_along(table, q)
}

/// Whether a type, if it is a path naming an interface of the table that
/// `is_param` does not take for a type parameter, is reported as no value
/// type.
pub open spec fn interface_ty_reported(ty: Ty, is_param: spec_fn(Seq<char>) -> bool,
    interfaces: Seq<(String, &InterfaceItem)>, errors: Seq<(Span, String)>) -> bool
{
    ty.kind matches TyKind::Path { path, .. } ==> {
        let name = join_segments(path.kind.segment_views());
        (!is_param(name) && table_lookup(interfaces, name) is Some) ==> reported(errors, interface_value_error(ty.span, name))
    }
}

/// An error once reported stays reported.
proof fn lemma_interface_ty_kept(ty: Ty, is_param: spec_fn(Seq<char>) -> bool,
    interfaces: Seq<(String, &InterfaceItem)>, a: Seq<(Span, String)>, b: Seq<(Span, String)>)
    requires
        errors_kept(a, b),
        interface_ty_reported(ty, is_param, interfaces, a),
    ensures
        interface_ty_reported(ty, is_param, interfaces, b),
{
    if let TyKind::Path { path, .. } = ty.kind {
        let name = join_segments(path.kind.segment_views());
        if !is_param(name) && table_lookup(interfaces, name) is Some {
            lemma_reported_kept(a, b, interface_value_error(ty.span, name));
        }
    }
}

/// Whether the error just added is the one for a type naming an interface.
proof fn lemma_interface_ty_checked(ty: Ty, is_param: spec_fn(Seq<char>) -> bool,
    interfaces: Seq<(String, &InterfaceItem)>, a: Seq<(Span, String)>, b: Seq<(Span, String)>)
    requires
        errors_kept(a, b),
        ty.kind matches TyKind::Path { path, .. } ==> {
            let name = join_segments(path.kind.segment_views());
            (!is_param(name) && table_lookup(interfaces, name) is Some)
                ==> errors_view(b) == errors_view(a).push((ty.span, "interface `"@ + name + "` is not a value type; use a generic bound instead"@))
        },
    ensures
        interface_ty_reported(ty, is_param, interfaces, b),
{
    if let TyKind::Path { path, .. } = ty.kind {
        let name = join_segments(path.kind.segment_views());
        if !is_param(name) && table_lookup(interfaces, name) is Some {
            let e = interface_value_error(ty.span, name);
            let last = errors_view(b).len() - 1;
            assert(errors_view(b)[last] == e);
            assert((b[last].0, b[last].1@) == e);
        }
    }
}

/// Whether a generic argument of the wrong kind for its parameter is
/// reported: a constant for a type parameter, or a type that cannot be
/// read as a constant for a constant parameter.
pub open spec fn arg_kind_reported(p: GenericParam, a: GenericArg, errors: Seq<(Span, String)>) -> bool {
    &&& (p.kind matches GenericParamKind::Type { name, .. } && a.kind is Const)
        ==> reported(errors, (a.span, "generic parameter `"@ + p.kind->Type_name@ + "` expects a type argument"@))
    &&& (p.kind matches GenericParamKind::Const { name, .. } && (a.kind matches GenericArgKind::Ty(t)
            && !(t.kind matches TyKind::Path { args, .. } && args@.len() == 0)))
        ==> reported(errors, (a.span, "generic parameter `"@ + p.kind->Const_name@ + "` expects a const argument"@))
}

/// The error for a constant argument at `span` for the constant parameter
/// `name` of type `ty` whose value `v` does not fit that type.
pub open spec fn const_arg_error(span: Span, name: Seq<char>, v: int, ty: IntTy) -> (Span, Seq<char>) {
    (span, "const argument for `"@ + name + "` has value `"@ + int_decimal(v) + "` which does not fit in "@ + int_ty_name(ty))
}

/// Whether a closed constant argument for a constant parameter whose value
/// does not fit the parameter's type is reported with its value.
pub open spec fn const_arg_reported(p: GenericParam, a: GenericArg, errors: Seq<(Span, String)>) -> bool {
    (p.kind is Const && a.kind is Const && closed_const(a.kind->Const_0) && const_value(a.kind->Const_0) is Some
        && !fits_spec(const_value(a.kind->Const_0)->0, p.kind->Const_ty))
        ==> reported(errors, const_arg_error(a.kind->Const_0.span, p.kind->Const_name@, const_value(a.kind->Const_0)->0, p.kind->Const_ty))
}

/// The generic parameters of the struct, or else the enum, named `name`.
pub open spec fn generic_params_named(structs: Seq<(String, &StructItem)>, enums: Seq<(String, &EnumItem)>, name: Seq<char>) -> Seq<GenericParam> {
    match table_lookup(structs, name) {
        Some(st) => st.kind.generics@,
        None => match table_lookup(enums, name) {
            Some(en) => en.kind.generics@,
            None => Seq::empty(),
        },
    }
}

/// The error for a `where` predicate at `span` equating the values `l`
/// and `r`, which differ.
pub open spec fn const_eq_error(span: Span, l: int, r: int) -> (Span, Seq<char>) {
    (span, "const equality predicate failed: `"@ + int_decimal(l) + "` != `"@ + int_decimal(r) + "`"@)
}

/// Whether a `where` predicate that equates two constant expressions of
/// different values, each naming only declared constants with closed
/// expressions and no const parameter in `params`, is reported with both
/// values.
pub open spec fn const_eq_predicate_reported(p: WherePredicate, consts: Seq<(String, &ConstItem)>, params: Seq<String>,
    errors: Seq<(Span, String)>) -> bool
{
    p.kind matches WherePredicateKind::ConstEq { lhs, rhs } ==> (
        (names_closed_consts(lhs, consts, params) && names_closed_consts(rhs, consts, params)
            && const_value_with(lhs, consts) is Some && const_value_with(rhs, consts) is Some
            && const_value_with(lhs, consts) != const_value_with(rhs, consts))
        ==> reported(errors, const_eq_error(p.span, const_value_with(lhs, consts)->0, const_value_with(rhs, consts)->0)))
}

/// `const_eq_predicate_reported` for a predicate of an item with the
/// generic parameters `generics`: no name in it is one of their constant
/// parameters.
pub open spec fn const_eq_failure_reported(p: WherePredicate, consts: Seq<(String, &ConstItem)>, generics: Seq<GenericParam>,
    errors: Seq<(Span, String)>) -> bool
{
    p.kind matches WherePredicateKind::ConstEq { lhs, rhs } ==> (
        (names_closed_in(lhs, consts, generics) && names_closed_in(rhs, consts, generics)
            && const_value_with(lhs, consts) is Some && const_value_with(rhs, consts) is Some
            && const_value_with(lhs, consts) != const_value_with(rhs, consts))
        ==> reported(errors, const_eq_error(p.span, const_value_with(lhs, consts)->0, const_value_with(rhs, consts)->0)))
}

/// Whether every failed constant equality among the `where` predicates of
/// `f` is reported.
pub open spec fn fn_const_predicates_reported(f: FnItem, consts: Seq<(String, &ConstItem)>, errors: Seq<(Span, String)>) -> bool {
    forall|k: int| 0 <= k < f.kind.where_predicates@.len()
        ==> #[trigger] const_eq_failure_reported(f.kind.where_predicates@[k], consts, f.kind.generics@, errors)
}

/// Whether every function the function table keeps, read with the
/// program's constant table, has its failed constant equalities reported.
pub open spec fn const_predicates_rejected(items: Seq<Item>, errors: Seq<(Span, String)>) -> bool {
    forall|table: Seq<(String, &ConstItem)>, j: int| #[trigger] const_table_of(table, items, items.len() as int)
        && 0 <= j < items.len() && ((#[trigger] items[j]).kind matches ItemKind::Fn(f)
            && last_fn_index(items, items.len() as int, f.kind.name@) == Some(j))
        ==> fn_const_predicates_reported(items[j].kind->Fn_0, table, errors)
}

/// Whether predicate `k` of `f`, if it equates two constant expressions of
/// different values that name only the program's constants, is diagnosed
/// with both values.
pub open spec fn const_eq_failure_diagnosed(f: FnItem, k: int, consts: Seq<(String, &ConstItem)>, diagnostics: Seq<Diagnostic>) -> bool {
    f.kind.where_predicates@[k].kind matches WherePredicateKind::ConstEq { lhs, rhs } ==> (
        (names_closed_in(lhs, consts, f.kind.generics@) && names_closed_in(rhs, consts, f.kind.generics@)
            && const_value_with(lhs, consts) is Some && const_value_with(rhs, consts) is Some
            && const_value_with(lhs, consts) != const_value_with(rhs, consts))
        ==> diagnosed(diagnostics, const_eq_error(f.kind.where_predicates@[k].span, const_value_with(lhs, consts)->0,
            const_value_with(rhs, consts)->0)))
}

/// Reports stay reports as errors are added.
proof fn lemma_fn_const_predicates_kept(f: FnItem, consts: Seq<(String, &ConstItem)>, a: Seq<(Span, String)>, b: Seq<(Span, String)>)
    requires
        errors_kept(a, b),
        fn_const_predicates_reported(f, consts, a),
    ensures
        fn_const_predicates_reported(f, consts, b),
{
    assert forall|k: int| 0 <= k < f.kind.where_predicates@.len() implies
        #[trigger] const_eq_failure_reported(f.kind.where_predicates@[k], consts, f.kind.generics@, b) by {
        assert(const_eq_failure_reported(f.kind.where_predicates@[k], consts, f.kind.generics@, a));
        let p = f.kind.where_predicates@[k];
        if let WherePredicateKind::ConstEq { lhs, rhs } = p.kind {
            if names_closed_in(lhs, consts, f.kind.generics@) && names_closed_in(rhs, consts, f.kind.generics@)
                && const_value_with(lhs, consts) is Some && const_value_with(rhs, consts) is Some
                && const_value_with(lhs, consts) != const_value_with(rhs, consts) {
                lemma_reported_kept(a, b, const_eq_error(p.span, const_value_with(lhs, consts)->0, const_value_with(rhs, consts)->0));
            }
        }
    }
}

/// Reports read with one constant table hold with another that agrees
/// with it on every name.
proof fn lemma_fn_const_predicates_tables(f: FnItem, a: Seq<(String, &ConstItem)>, b: Seq<(String, &ConstItem)>, errors: Seq<(Span, String)>)
    requires
        forall|n: Seq<char>| #[trigger] table_lookup(a, n) == table_lookup(b, n),
        fn_const_predicates_reported(f, a, errors),
    ensures
        fn_const_predicates_reported(f, b, errors),
{
    assert forall|k: int| 0 <= k < f.kind.where_predicates@.len() implies
        #[trigger] const_eq_failure_reported(f.kind.where_predicates@[k], b, f.kind.generics@, errors) by {
        assert(const_eq_failure_reported(f.kind.where_predicates@[k], a, f.kind.generics@, errors));
        if let WherePredicateKind::ConstEq { lhs, rhs } = f.kind.where_predicates@[k].kind {
            lemma_same_const_tables(lhs, a, b, f.kind.generics@);
            lemma_same_const_tables(rhs, a, b, f.kind.generics@);
        }
    }
}

/// Reports in the later part of a report are in the whole report.
proof fn lemma_fn_const_predicates_append(f: FnItem, consts: Seq<(String, &ConstItem)>, a: Seq<(Span, String)>, b: Seq<(Span, String)>)
    requires
        fn_const_predicates_reported(f, consts, b),
    ensures
        fn_const_predicates_reported(f, consts, a + b),
{
    assert forall|k: int| 0 <= k < f.kind.where_predicates@.len() implies
        #[trigger] const_eq_failure_reported(f.kind.where_predicates@[k], consts, f.kind.generics@, a + b) by {
        assert(const_eq_failure_reported(f.kind.where_predicates@[k], consts, f.kind.generics@, b));
        let p = f.kind.where_predicates@[k];
        if let WherePredicateKind::ConstEq { lhs, rhs } = p.kind {
            if names_closed_in(lhs, consts, f.kind.generics@) && names_closed_in(rhs, consts, f.kind.generics@)
                && const_value_with(lhs, consts) is Some && const_value_with(rhs, consts) is Some
                && const_value_with(lhs, consts) != const_value_with(rhs, consts) {
                lemma_reported_append(a, b, const_eq_error(p.span, const_value_with(lhs, consts)->0, const_value_with(rhs, consts)->0));
            }
        }
    }
}

/// Whether a variant that has a payload and an explicit discriminant is
/// reported at the discriminant.
pub open spec fn discriminant_misuse_reported(v: crate::ast::EnumVariant, errors: Seq<(Span, String)>) -> bool {
    (v.kind.discriminant matches Some(d) && !(v.kind.payload.kind is Unit))
        ==> reported(errors, (v.kind.discriminant->0.span, "only unit enum variants may have explicit discriminants"@))
}

/// Whether every variant of the enum is so reported.
pub open spec fn enum_discriminants_reported(item: EnumItem, errors: Seq<(Span, String)>) -> bool {
    forall|k: int| 0 <= k < item.kind.variants@.len() ==> discriminant_misuse_reported(#[trigger] item.kind.variants@[k], errors)
}

/// The error for a variant that repeats the name of an earlier variant.
pub open spec fn duplicate_variant_error(v: crate::ast::EnumVariant) -> (Span, Seq<char>) {
    (v.span, "duplicate enum variant `"@ + v.kind.name@ + "`"@)
}

/// Whether variant `k` of the enum, when an earlier variant has its name,
/// is reported as a duplicate.
pub open spec fn variant_duplicate_reported(item: EnumItem, k: int, errors: Seq<(Span, String)>) -> bool {
    (exists|q: int| 0 <= q < k && (#[trigger] item.kind.variants@[q]).kind.name@ == item.kind.variants@[k].kind.name@)
        ==> reported(errors, duplicate_variant_error(item.kind.variants@[k]))
}

/// The value of a variant's explicit discriminant, where it is a closed
/// expression with a value.
pub open spec fn closed_discriminant(v: crate::ast::EnumVariant) -> Option<int> {
    match v.kind.discriminant {
        Some(d) => if closed_const(d) { const_value(d) } else { None },
        None => None,
    }
}

/// The error for a discriminant at `span` whose value `x` an earlier
/// discriminant of the enum has.
pub open spec fn duplicate_discriminant_error(span: Span, x: int) -> (Span, Seq<char>) {
    (span, "duplicate enum discriminant `"@ + int_decimal(x) + "`"@)
}

/// Whether variant `k`, when its closed discriminant has the value of an
/// earlier variant's closed discriminant, is reported with that value.
pub open spec fn discriminant_duplicate_reported(item: EnumItem, k: int, errors: Seq<(Span, String)>) -> bool {
    (closed_discriminant(item.kind.variants@[k]) is Some && exists|q: int| 0 <= q < k
        && closed_discriminant(#[trigger] item.kind.variants@[q]) == closed_discriminant(item.kind.variants@[k]))
        ==> reported(errors, duplicate_discriminant_error(item.kind.variants@[k].kind.discriminant->0.span,
            closed_discriminant(item.kind.variants@[k])->0))
}

/// Whether every variant of the enum that repeats an earlier name, or the
/// closed discriminant value of an earlier variant, is reported.
pub open spec fn enum_variants_reported(item: EnumItem, errors: Seq<(Span, String)>) -> bool {
    forall|k: int| 0 <= k < item.kind.variants@.len() ==> #[trigger] variant_repeats_reported(item, k, errors)
}

/// Whether variant `k` is reported where it repeats an earlier name or
/// closed discriminant value.
pub open spec fn variant_repeats_reported(item: EnumItem, k: int, errors: Seq<(Span, String)>) -> bool {
    variant_duplicate_reported(item, k, errors) && discriminant_duplicate_reported(item, k, errors)
}

/// Whether every enum the program's enum table keeps has its repeated
/// variants reported.
pub open spec fn enum_duplicates_rejected(items: Seq<Item>, errors: Seq<(Span, String)>) -> bool {
    forall|j: int| 0 <= j < items.len() && ((#[trigger] items[j]).kind matches ItemKind::Enum(e)
        && last_enum_index(items, items.len() as int, e.kind.name@) == Some(j))
        ==> enum_variants_reported(items[j].kind->Enum_0, errors)
}

/// Whether variant `k` of the enum, when an earlier variant has its name,
/// has a diagnostic saying so.
pub open spec fn variant_duplicate_diagnosed(item: EnumItem, k: int, diagnostics: Seq<Diagnostic>) -> bool {
    (exists|q: int| 0 <= q < k && (#[trigger] item.kind.variants@[q]).kind.name@ == item.kind.variants@[k].kind.name@)
        ==> diagnosed(diagnostics, duplicate_variant_error(item.kind.variants@[k]))
}

/// Whether variant `k` of the enum, when its closed discriminant has the
/// value of an earlier variant's, has a diagnostic saying so.
pub open spec fn discriminant_duplicate_diagnosed(item: EnumItem, k: int, diagnostics: Seq<Diagnostic>) -> bool {
    (closed_discriminant(item.kind.variants@[k]) is Some && exists|q: int| 0 <= q < k
        && closed_discriminant(#[trigger] item.kind.variants@[q]) == closed_discriminant(item.kind.variants@[k]))
        ==> diagnosed(diagnostics, duplicate_discriminant_error(item.kind.variants@[k].kind.discriminant->0.span,
            closed_discriminant(item.kind.variants@[k])->0))
}

/// Whether variant `k` of the enum has a diagnostic where it repeats an
/// earlier name or closed discriminant value.
pub open spec fn variant_repeats_diagnosed(item: EnumItem, k: int, diagnostics: Seq<Diagnostic>) -> bool {
    variant_duplicate_diagnosed(item, k, diagnostics) && discriminant_duplicate_diagnosed(item, k, diagnostics)
}

/// Reports of repeated variants stay when errors are put before them.
proof fn lemma_enum_variants_append(item: EnumItem, a: Seq<(Span, String)>, b: Seq<(Span, String)>)
    requires
        enum_variants_reported(item, b),
    ensures
        enum_variants_reported(item, a + b),
{
    assert forall|k: int| 0 <= k < item.kind.variants@.len() implies #[trigger] variant_repeats_reported(item, k, a + b) by {
        assert(variant_repeats_reported(item, k, b));
        if exists|q: int| 0 <= q < k && (#[trigger] item.kind.variants@[q]).kind.name@ == item.kind.variants@[k].kind.name@ {
            lemma_reported_append(a, b, duplicate_variant_error(item.kind.variants@[k]));
        }
        if closed_discriminant(item.kind.variants@[k]) is Some && exists|q: int| 0 <= q < k
            && closed_discriminant(#[trigger] item.kind.variants@[q]) == closed_discriminant(item.kind.variants@[k]) {
            lemma_reported_append(a, b, duplicate_discriminant_error(item.kind.variants@[k].kind.discriminant->0.span,
                closed_discriminant(item.kind.variants@[k])->0));
        }
    }
}

/// Reports of repeated variants stay as errors are added.
proof fn lemma_enum_variants_kept(item: EnumItem, a: Seq<(Span, String)>, b: Seq<(Span, String)>)
    requires
        errors_kept(a, b),
        enum_variants_reported(item, a),
    ensures
        enum_variants_reported(item, b),
{
    assert forall|k: int| 0 <= k < item.kind.variants@.len() implies #[trigger] variant_repeats_reported(item, k, b) by {
        assert(variant_repeats_reported(item, k, a));
        if exists|q: int| 0 <= q < k && (#[trigger] item.kind.variants@[q]).kind.name@ == item.kind.variants@[k].kind.name@ {
            lemma_reported_kept(a, b, duplicate_variant_error(item.kind.variants@[k]));
        }
        if closed_discriminant(item.kind.variants@[k]) is Some && exists|q: int| 0 <= q < k
            && closed_discriminant(#[trigger] item.kind.variants@[q]) == closed_discriminant(item.kind.variants@[k]) {
            lemma_reported_kept(a, b, duplicate_discriminant_error(item.kind.variants@[k].kind.discriminant->0.span,
                closed_discriminant(item.kind.variants@[k])->0));
        }
    }
}

/// The error for a discriminant at `span` of value `v` that does not fit
/// the enum's `repr` type.
pub open spec fn discriminant_fit_error(span: Span, v: int, repr: IntTy) -> (Span, Seq<char>) {
    (span, "discriminant `"@ + int_decimal(v) + "` does not fit in "@ + int_ty_name(repr))
}

/// Whether an explicit discriminant of a variant of `e`, an enum with a
/// `repr` type, that names only declared constants with closed expressions
/// (and none of the enum's constant parameters) and whose value does not
/// fit the `repr` type, is reported with its value.
pub open spec fn discriminant_fit_reported(e: EnumItem, v: crate::ast::EnumVariant, consts: Seq<(String, &ConstItem)>,
    errors: Seq<(Span, String)>) -> bool
{
    (v.kind.discriminant is Some && e.kind.repr is Some
        && names_closed_in(v.kind.discriminant->0, consts, e.kind.generics@)
        && const_value_with(v.kind.discriminant->0, consts) is Some
        && !fits_spec(const_value_with(v.kind.discriminant->0, consts)->0, e.kind.repr->0))
        ==> reported(errors, discriminant_fit_error(v.kind.discriminant->0.span,
            const_value_with(v.kind.discriminant->0, consts)->0, e.kind.repr->0))
}

/// Whether every variant of the enum is so reported.
pub open spec fn enum_discriminant_fits_reported(e: EnumItem, consts: Seq<(String, &ConstItem)>, errors: Seq<(Span, String)>) -> bool {
    forall|k: int| 0 <= k < e.kind.variants@.len() ==> #[trigger] discriminant_fit_reported(e, e.kind.variants@[k], consts, errors)
}

/// Reports stay reported as errors are added.
proof fn lemma_discriminant_fits_kept(e: EnumItem, consts: Seq<(String, &ConstItem)>, a: Seq<(Span, String)>, b: Seq<(Span, String)>)
    requires
        errors_kept(a, b),
        enum_discriminant_fits_reported(e, consts, a),
    ensures
        enum_discriminant_fits_reported(e, consts, b),
{
    assert forall|k: int| 0 <= k < e.kind.variants@.len() implies #[trigger] discriminant_fit_reported(e, e.kind.variants@[k], consts, b) by {
        let v = e.kind.variants@[k];
        assert(discriminant_fit_reported(e, v, consts, a));
        if v.kind.discriminant is Some && e.kind.repr is Some && const_value_with(v.kind.discriminant->0, consts) is Some
            && names_closed_in(v.kind.discriminant->0, consts, e.kind.generics@)
            && !fits_spec(const_value_with(v.kind.discriminant->0, consts)->0, e.kind.repr->0) {
            lemma_reported_kept(a, b, discriminant_fit_error(v.kind.discriminant->0.span,
                const_value_with(v.kind.discriminant->0, consts)->0, e.kind.repr->0));
        }
    }
}

/// The error for an associated const default at `span` of value `v` that
/// does not fit the constant's type `ty`.
pub open spec fn default_fit_error(span: Span, v: int, ty: IntTy) -> (Span, Seq<char>) {
    (span, "associated const default `"@ + int_decimal(v) + "` does not fit in "@ + int_ty_name(ty))
}

/// Whether a default of an associated const declared by the interface
/// `it`, naming only declared constants with closed expressions (and none
/// of the interface's constant parameters), whose value does not fit the
/// constant's type, is reported with its value.
pub open spec fn default_fit_reported(it: InterfaceItem, m: crate::ast::InterfaceMember, consts: Seq<(String, &ConstItem)>,
    errors: Seq<(Span, String)>) -> bool
{
    m.kind matches InterfaceMemberKind::AssocConst(sig) ==> ((sig.kind.default is Some
        && names_closed_in(sig.kind.default->0, consts, it.kind.generics@)
        && const_value_with(sig.kind.default->0, consts) is Some
        && !fits_spec(const_value_with(sig.kind.default->0, consts)->0, sig.kind.ty))
        ==> reported(errors, default_fit_error(sig.kind.default->0.span, const_value_with(sig.kind.default->0, consts)->0, sig.kind.ty)))
}

/// Whether every member of the interface is so reported.
pub open spec fn interface_defaults_reported(it: InterfaceItem, consts: Seq<(String, &ConstItem)>, errors: Seq<(Span, String)>) -> bool {
    forall|k: int| 0 <= k < it.kind.members@.len() ==> #[trigger] default_fit_reported(it, it.kind.members@[k], consts, errors)
}

/// Reports stay reported as errors are added.
proof fn lemma_interface_defaults_kept(it: InterfaceItem, consts: Seq<(String, &ConstItem)>, a: Seq<(Span, String)>, b: Seq<(Span, String)>)
    requires
        errors_kept(a, b),
        interface_defaults_reported(it, consts, a),
    ensures
        interface_defaults_reported(it, consts, b),
{
    assert forall|k: int| 0 <= k < it.kind.members@.len() implies #[trigger] default_fit_reported(it, it.kind.members@[k], consts, b) by {
        let m = it.kind.members@[k];
        assert(default_fit_reported(it, m, consts, a));
        if let InterfaceMemberKind::AssocConst(sig) = m.kind {
            if sig.kind.default is Some && names_closed_in(sig.kind.default->0, consts, it.kind.generics@)
                && const_value_with(sig.kind.default->0, consts) is Some
                && !fits_spec(const_value_with(sig.kind.default->0, consts)->0, sig.kind.ty) {
                lemma_reported_kept(a, b, default_fit_error(sig.kind.default->0.span, const_value_with(sig.kind.default->0, consts)->0, sig.kind.ty));
            }
        }
    }
}

/// Reports stay reported as errors are added.
proof fn lemma_enum_discriminants_kept(item: EnumItem, a: Seq<(Span, String)>, b: Seq<(Span, String)>)
    requires
        errors_kept(a, b),
        enum_discriminants_reported(item, a),
    ensures
        enum_discriminants_reported(item, b),
{
    assert forall|k: int| 0 <= k < item.kind.variants@.len() implies discriminant_misuse_reported(#[trigger] item.kind.variants@[k], b) by {
        let v = item.kind.variants@[k];
        assert(discriminant_misuse_reported(v, a));
        if v.kind.discriminant is Some && !(v.kind.payload.kind is Unit) {
            lemma_reported_kept(a, b, (v.kind.discriminant->0.span, "only unit enum variants may have explicit discriminants"@));
        }
    }
}

/// Whether every field of the struct typed by an interface of the table
/// (not shadowed by a type parameter of the struct) is reported.
pub open spec fn struct_fields_reported(item: StructItem, interfaces: Seq<(String, &InterfaceItem)>,
    errors: Seq<(Span, String)>) -> bool
{
    forall|k: int| 0 <= k < item.kind.fields@.len() ==> interface_ty_reported((#[trigger] item.kind.fields@[k]).kind.ty,
        |n: Seq<char>| type_param_named(item.kind.generics@, n), interfaces, errors)
}

/// Reports stay reported as errors are added.
proof fn lemma_struct_fields_kept(item: StructItem, interfaces: Seq<(String, &InterfaceItem)>,
    a: Seq<(Span, String)>, b: Seq<(Span, String)>)
    requires
        errors_kept(a, b),
        struct_fields_reported(item, interfaces, a),
    ensures
        struct_fields_reported(item, interfaces, b),
{
    assert forall|k: int| 0 <= k < item.kind.fields@.len() implies interface_ty_reported((#[trigger] item.kind.fields@[k]).kind.ty,
        |n: Seq<char>| type_param_named(item.kind.generics@, n), interfaces, b) by {
        lemma_interface_ty_kept(item.kind.fields@[k].kind.ty, |n: Seq<char>| type_param_named(item.kind.generics@, n), interfaces, a, b);
    }
}

/// Whether two generic parameters are of the same kind under the same
/// name, with as many bounds or the same constant type.
pub open spec fn generic_params_alike(a: GenericParam, b: GenericParam) -> bool {
    match (a.kind, b.kind) {
        (GenericParamKind::Type { name: an, bounds: ab }, GenericParamKind::Type { name: bn, bounds: bb }) =>
            an@ == bn@ && ab@.len() == bb@.len(),
        (GenericParamKind::Const { name: an, ty: at }, GenericParamKind::Const { name: bn, ty: bt }) =>
            an@ == bn@ && at == bt,
        _ => false,
    }
}

/// Whether a field pattern that repeats an earlier one's name, or names no
/// field of the struct, is reported.
pub open spec fn field_pat_reported(pats: Seq<crate::ast::FieldPat>, fields: Seq<Field>, i: int, errors: Seq<(Span, String)>) -> bool {
    let p = pats[i];
    &&& (exists|j: int| 0 <= j < i && pats[j].kind.name@ == p.kind.name@)
        ==> reported(errors, (p.span, "duplicate pattern field `"@ + p.kind.name@ + "`"@))
    &&& (!(exists|j: int| 0 <= j < i && pats[j].kind.name@ == p.kind.name@)
        && forall|f: int| 0 <= f < fields.len() ==> fields[f].kind.name@ != p.kind.name@)
        ==> reported(errors, (p.span, "unknown field `"@ + p.kind.name@ + "`"@))
}

/// Whether the impl defines a method named `n`.
pub open spec fn impl_has_method(item: ImplItem, n: Seq<char>) -> bool {
    exists|m: int| 0 <= m < item.kind.members@.len()
        && ((#[trigger] item.kind.members@[m]).kind matches ImplMemberKind::Method(md) && md.kind.sig.kind.name@ == n)
}

/// The error for an impl of the interface `iname` that lacks the method `n`.
pub open spec fn missing_method_error(item: ImplItem, iname: Seq<char>, n: Seq<char>) -> (Span, Seq<char>) {
    (item.span, "impl for `"@ + iname + "` is missing method `"@ + n + "`"@)
}

/// Whether an impl of an interface that lacks one of the interface's own
/// methods has that reported.
pub open spec fn impl_methods_reported(item: ImplItem, interfaces: Seq<(String, &InterfaceItem)>, errors: Seq<(Span, String)>) -> bool {
    item.kind.interface matches Some(iref) ==> (table_lookup(interfaces, ref_name(iref)) matches Some(it) ==> forall|m: int|
        0 <= m < it.kind.members@.len() ==> ((#[trigger] it.kind.members@[m]).kind matches InterfaceMemberKind::Method(sig)
            ==> (!impl_has_method(item, sig.kind.name@)
                ==> reported(errors, missing_method_error(item, ref_name(iref), sig.kind.name@)))))
}

/// Reports stay reported as errors are added.
proof fn lemma_impl_methods_kept(item: ImplItem, interfaces: Seq<(String, &InterfaceItem)>, a: Seq<(Span, String)>, b: Seq<(Span, String)>)
    requires
        errors_kept(a, b),
        impl_methods_reported(item, interfaces, a),
    ensures
        impl_methods_reported(item, interfaces, b),
{
    if let Some(iref) = item.kind.interface {
        if let Some(it) = table_lookup(interfaces, ref_name(iref)) {
            assert forall|m: int| 0 <= m < it.kind.members@.len() implies ((#[trigger] it.kind.members@[m]).kind matches InterfaceMemberKind::Method(sig)
                ==> (!impl_has_method(item, sig.kind.name@)
                    ==> reported(b, missing_method_error(item, ref_name(iref), sig.kind.name@)))) by {
                if let InterfaceMemberKind::Method(sig) = it.kind.members@[m].kind {
                    if !impl_has_method(item, sig.kind.name@) {
                        lemma_reported_kept(a, b, missing_method_error(item, ref_name(iref), sig.kind.name@));
                    }
                }
            }
        }
    }
}

/// Whether two types are the same primitive type: both unit, both `bool`,
/// or the same integer type.
pub open spec fn same_primitive(a: Ty, b: Ty) -> bool {
    (a.kind is Unit && b.kind is Unit) || (a.kind is Bool && b.kind is Bool)
        || (a.kind is Int && b.kind is Int && a.kind == b.kind)
}

/// Whether two types are the same named type, written without generic
/// arguments.
pub open spec fn same_nominal(a: Ty, b: Ty) -> bool {
    a.kind matches TyKind::Path { path: ap, args: aa } && (b.kind matches TyKind::Path { path: bp, args: ba }
        && aa@.len() == 0 && ba@.len() == 0 && join_segments(ap.kind.segment_views()) == join_segments(bp.kind.segment_views()))
}

/// Whether the later of two impls of the same interface for the same
/// primitive type, or the same named type without arguments, is reported
/// as conflicting.
pub open spec fn impl_conflict_reported(a: ImplItem, b: ImplItem, errors: Seq<(Span, String)>) -> bool {
    (a.kind.interface matches Some(ai) && (b.kind.interface matches Some(bi) && ref_name(ai) == ref_name(bi)
        && (same_primitive(a.kind.self_ty, b.kind.self_ty) || same_nominal(a.kind.self_ty, b.kind.self_ty))))
        ==> reported(errors, (b.span, "conflicting impl of `"@ + ref_name(a.kind.interface->0) + "` for `"@ + ty_text(b.kind.self_ty) + "`"@))
}

/// The message for an impl of an interface for a type that another impl
/// already implements it for.
pub open spec fn conflicting_impl_message(im: ImplItem) -> Seq<char> {
    "conflicting impl of `"@ + ref_name(im.kind.interface->0) + "` for `"@ + ty_text(im.kind.self_ty) + "`"@
}

/// Whether two different impls of the program of the same interface for
/// the same primitive type, or the same named type without arguments, are
/// reported as conflicting.
pub open spec fn impl_conflicts_rejected(items: Seq<Item>, errors: Seq<(Span, String)>) -> bool {
    forall|j1: int, j2: int| 0 <= j1 < items.len() && 0 <= j2 < items.len()
        && ((#[trigger] items[j1]).kind matches ItemKind::Impl(a) && ((#[trigger] items[j2]).kind matches ItemKind::Impl(b)
            && a != b && a.kind.interface is Some && b.kind.interface is Some
            && ref_name(a.kind.interface->0) == ref_name(b.kind.interface->0)
            && (same_primitive(a.kind.self_ty, b.kind.self_ty) || same_nominal(a.kind.self_ty, b.kind.self_ty))))
        ==> exists|k: int| 0 <= k < errors.len() && errors[k].1@ == conflicting_impl_message(items[j1].kind->Impl_0)
}

/// Whether every impl of the program that implements one of the program's
/// interfaces (its last declaration) and lacks one of that interface's own
/// methods has that reported.
pub open spec fn missing_methods_rejected(items: Seq<Item>, errors: Seq<(Span, String)>) -> bool {
    forall|j: int| 0 <= j < items.len() ==> ((#[trigger] items[j]).kind matches ItemKind::Impl(im)
        ==> (im.kind.interface matches Some(iref)
            ==> (last_interface_index(items, items.len() as int, ref_name(iref)) matches Some(x)
                ==> (items[x].kind matches ItemKind::Interface(it) ==> forall|m: int| 0 <= m < it.kind.members@.len()
                    ==> ((#[trigger] it.kind.members@[m]).kind matches InterfaceMemberKind::Method(sig)
                        ==> (!impl_has_method(im, sig.kind.name@)
                            ==> reported(errors, missing_method_error(im, ref_name(iref), sig.kind.name@))))))))
}

/// Whether every item is a constant whose closed expression has a value
/// that fits its type.
pub open spec fn fitting_constants_only(items: Seq<Item>) -> bool {
    forall|j: int| 0 <= j < items.len() ==> ((#[trigger] items[j]).kind matches ItemKind::Const(c)
        && closed_const(c.kind.expr) && fitting_value(const_value(c.kind.expr), c.kind.ty) is Some)
}

/// Whether the `m`-th member of the interface `it`, when it is a method
/// that the impl `im` of it lacks, is diagnosed.
pub open spec fn missing_method_diagnosed(im: ImplItem, iname: Seq<char>, it: InterfaceItem, m: int, diagnostics: Seq<Diagnostic>) -> bool {
    it.kind.members@[m].kind matches InterfaceMemberKind::Method(sig)
        ==> (!impl_has_method(im, sig.kind.name@) ==> diagnosed(diagnostics, missing_method_error(im, iname, sig.kind.name@)))
}

/// Whether member `m` of impl `j` is the constant `name` that answers a
/// request for the interface `iname` on the primitive type `ty`: impl `j`
/// is for that interface and type, no earlier impl implements the
/// interface, and `m` is the impl's first constant named `name`.
pub open spec fn answering_const(impls: Seq<&ImplItem>, interfaces: Seq<(String, &InterfaceItem)>, iname: Seq<char>,
    ty: Ty, name: Seq<char>, j: int, m: int) -> bool
{
    &&& 0 <= j < impls.len()
    &&& impls[j].kind.interface matches Some(x) && ref_name(x) == iname
    &&& same_primitive(ty, impls[j].kind.self_ty)
    &&& forall|q: int| 0 <= q < j ==> !((#[trigger] impls[q]).kind.interface matches Some(x) && reaches(interfaces, ref_name(x), iname))
    &&& 0 <= m < impls[j].kind.members@.len()
    &&& impls[j].kind.members@[m].kind matches ImplMemberKind::AssocConst(c) && c.kind.name@ == name
    &&& forall|q: int| 0 <= q < m ==> !((#[trigger] impls[j].kind.members@[q]).kind matches ImplMemberKind::AssocConst(c) && c.kind.name@ == name)
}

/// Whether each own member of the interface has an entry among the
/// requirements.
pub open spec fn own_members_required(item: InterfaceItem, methods: Seq<(String, &MethodSig)>,
    consts: Seq<(String, &AssocConstSig)>) -> bool
{
    forall|m: int| 0 <= m < item.kind.members@.len() ==> match (#[trigger] item.kind.members@[m]).kind {
        InterfaceMemberKind::Method(sig) => table_has(methods, sig.kind.name@),
        InterfaceMemberKind::AssocConst(sig) => table_has(consts, sig.kind.name@),
    }
}

/// The last associated constant an interface declares under the name `n`.
pub open spec fn own_const_sig(members: Seq<crate::ast::InterfaceMember>, n: Seq<char>) -> Option<AssocConstSig>
    decreases members.len(),
{
    if members.len() == 0 {
        None
    } else {
        match members.last().kind {
            InterfaceMemberKind::AssocConst(c) => if c.kind.name@ == n { Some(c) } else { own_const_sig(members.drop_last(), n) },
            _ => own_const_sig(members.drop_last(), n),
        }
    }
}

/// Whether a table of required constants holds, for each name the
/// interface itself declares a constant under, the last such declaration.
pub open spec fn own_consts_last(item: InterfaceItem, consts: Seq<(String, &AssocConstSig)>) -> bool {
    forall|n: Seq<char>| #[trigger] own_const_sig(item.kind.members@, n) matches Some(c)
        ==> (table_lookup(consts, n) matches Some(t) && *t == c)
}

/// The first associated constant an impl provides under the name `n`.
pub open spec fn first_impl_const(members: Seq<crate::ast::ImplMember>, n: Seq<char>) -> Option<crate::ast::AssocConstImpl>
    decreases members.len(),
{
    if members.len() == 0 {
        None
    } else {
        match members[0].kind {
            ImplMemberKind::AssocConst(c) => if c.kind.name@ == n { Some(c) } else { first_impl_const(members.drop_first(), n) },
            _ => first_impl_const(members.drop_first(), n),
        }
    }
}

/// The first constant of an impl named `n` is the first member that is one.
proof fn lemma_first_impl_const(members: Seq<crate::ast::ImplMember>, n: Seq<char>, m: int)
    requires
        0 <= m < members.len(),
        members[m].kind matches ImplMemberKind::AssocConst(c) && c.kind.name@ == n,
        forall|q: int| 0 <= q < m ==> !((#[trigger] members[q]).kind matches ImplMemberKind::AssocConst(c)
            && c.kind.name@ == n),
    ensures
        first_impl_const(members, n) == Some(members[m].kind->AssocConst_0),
    decreases m,
{
    if m > 0 {
        let rest = members.drop_first();
        assert forall|q: int| 0 <= q < m - 1 implies !((#[trigger] rest[q]).kind matches ImplMemberKind::AssocConst(c)
            && c.kind.name@ == n) by {
            assert(rest[q] == members[q + 1]);
        }
        lemma_first_impl_const(rest, n, m - 1);
    }
}

/// An impl without a constant named `n` has no first one.
proof fn lemma_first_impl_const_none(members: Seq<crate::ast::ImplMember>, n: Seq<char>)
    requires
        forall|q: int| 0 <= q < members.len() ==> !((#[trigger] members[q]).kind matches ImplMemberKind::AssocConst(c)
            && c.kind.name@ == n),
    ensures
        first_impl_const(members, n) is None,
    decreases members.len(),
{
    if members.len() > 0 {
        let rest = members.drop_first();
        assert forall|q: int| 0 <= q < rest.len() implies !((#[trigger] rest[q]).kind matches ImplMemberKind::AssocConst(c)
            && c.kind.name@ == n) by {
            assert(rest[q] == members[q + 1]);
        }
        assert(!(members[0].kind matches ImplMemberKind::AssocConst(c) && c.kind.name@ == n));
        lemma_first_impl_const_none(rest, n);
    }
}

/// The error for an impl constant whose type is not the one the interface
/// declares.
pub open spec fn const_type_error(n: Seq<char>, c: crate::ast::AssocConstImpl, sig: AssocConstSig) -> (Span, Seq<char>) {
    (c.span, "associated const `"@ + n + "` has type `"@ + int_ty_name(c.kind.ty) + "`, expected `"@
        + int_ty_name(sig.kind.ty) + "`"@)
}

/// One step of a walk.
proof fn lemma_inherits_step(table: Seq<(String, &InterfaceItem)>, q: Seq<Seq<char>>, i: int)
    requires
        inherits_along(table, q),
        0 <= i < q.len() - 1,
    ensures
        inherits(table, q[i], q[i + 1]),
{
}

/// Whether the inheritance search, with the interfaces of `stack` open,
/// meets a name already open by following `q`: the names of `q` before the
/// last are distinct and not open, and the last is open or met before.
pub open spec fn open_path(table: Seq<(String, &InterfaceItem)>, stack: Seq<String>, q: Seq<Seq<char>>) -> bool {
    &&& q.len() >= 1
    &&& inherits_along(table, q)
    &&& q.drop_last().no_duplicates()
    &&& forall|i: int| 0 <= i < q.len() - 1 ==> !has_name(stack, #[trigger] q[i])
    &&& (has_name(stack, q.last()) || q.drop_last().contains(q.last()))
}

/// Whether every such path from `start`, of at most `depth` steps, has its
/// cycle reported.
pub open spec fn open_paths_reported(table: Seq<(String, &InterfaceItem)>, stack: Seq<String>, start: Seq<char>,
    depth: int, errors: Seq<(Span, String)>) -> bool
{
    forall|q: Seq<Seq<char>>| #[trigger] open_path(table, stack, q) && q[0] == start && q.len() - 1 <= depth
        ==> cycle_reported(errors, q.last())
}

/// Reported cycles stay reported as errors are added.
proof fn lemma_open_paths_kept(table: Seq<(String, &InterfaceItem)>, stack: Seq<String>, start: Seq<char>,
    depth: int, a: Seq<(Span, String)>, b: Seq<(Span, String)>)
    requires
        errors_kept(a, b),
        open_paths_reported(table, stack, start, depth, a),
    ensures
        open_paths_reported(table, stack, start, depth, b),
{
    assert forall|q: Seq<Seq<char>>| #[trigger] open_path(table, stack, q) && q[0] == start && q.len() - 1 <= depth
        implies cycle_reported(b, q.last()) by {
        let k = choose|k: int| 0 <= k < a.len() && a[k].1@ == cycle_message(q.last());
        assert(b[k] == a[k]);
    }
}

/// A walk that comes back to where it started holds a cycle through its
/// start that meets no name twice.
proof fn lemma_simple_cycle(table: Seq<(String, &InterfaceItem)>, w: Seq<Seq<char>>) -> (q: Seq<Seq<char>>)
    requires
        w.len() >= 2,
        inherits_along(table, w),
        w[0] == w.last(),
    ensures
        q.len() >= 2,
        inherits_along(table, q),
        q[0] == w[0],
        q.last() == w[0],
        q.drop_last().no_duplicates(),
    decreases w.len(),
{
    if w.drop_last().no_duplicates() {
        w
    } else {
        let (a, b) = choose|a: int, b: int| 0 <= a < b < w.drop_last().len() && w.drop_last()[a] == w.drop_last()[b];
        let w2 = w.subrange(0, a + 1) + w.subrange(b + 1, w.len() as int);
        assert forall|i: int| 0 <= i < w2.len() - 1 implies #[trigger] inherits(table, w2[i], w2[i + 1]) by {
            if i < a {
                assert(inherits(table, w[i], w[i + 1]));
            } else if i == a {
                assert(inherits(table, w[b], w[b + 1]));
            } else {
                let j = i + b - a;
                assert(w2[i] == w[j] && w2[i + 1] == w[j + 1]);
                assert(inherits(table, w[j], w[j + 1]));
            }
        }
        lemma_simple_cycle(table, w2)
    }
}

/// A name is open once pushed; the others are open as before.
proof fn lemma_has_name_push(names: Seq<String>, s: String, n: Seq<char>)
    ensures
        has_name(names.push(s), n) <==> (has_name(names, n) || n == s@),
{
    if has_name(names, n) {
        let k = choose|k: int| 0 <= k < names.len() && names[k]@ == n;
        assert(names.push(s)[k] == names[k]);
    }
    if n == s@ {
        assert(names.push(s)[names.len() as int] == s);
    }
    if has_name(names.push(s), n) {
        let k = choose|k: int| 0 <= k < names.push(s).len() && names.push(s)[k]@ == n;
        if k < names.len() {
            assert(names.push(s)[k] == names[k]);
        }
    }
}

/// The table holds the names declared in `space` by the first `i + 1`
/// items once item `i` has been added.
proof fn lemma_declared_extend<T>(items: Seq<Item>, i: int, space: int, before: Seq<(String, T)>, after: Seq<(String, T)>)
    requires
        0 <= i < items.len(),
        forall|n: Seq<char>| table_has(before, n) <==> declared_before(items, i, space, n),
        item_space(items[i]) == space ==> forall|n: Seq<char>| #[trigger] table_has(after, n)
            <==> (table_has(before, n) || n == item_declared_name(items[i])),
        item_space(items[i]) != space ==> after == before,
    ensures
        forall|n: Seq<char>| table_has(after, n) <==> declared_before(items, i + 1, space, n),
{
    assert forall|n: Seq<char>| table_has(after, n) <==> declared_before(items, i + 1, space, n) by {
        if declared_before(items, i + 1, space, n) {
            let j = choose|j: int| 0 <= j < i + 1 && #[trigger] item_space(items[j]) == space && item_declared_name(items[j]) == n;
            if j < i {
                assert(declared_before(items, i, space, n));
            }
        }
        if declared_before(items, i, space, n) {
            let j = choose|j: int| 0 <= j < i && #[trigger] item_space(items[j]) == space && item_declared_name(items[j]) == n;
            assert(0 <= j < i + 1 && item_space(items[j]) == space && item_declared_name(items[j]) == n);
        }
        if item_space(items[i]) == space && n == item_declared_name(items[i]) {
            assert(0 <= i < i + 1 && item_space(items[i]) == space && item_declared_name(items[i]) == n);
        }
    }
}

/// The same for a plain set of names.
proof fn lemma_declared_extend_names(items: Seq<Item>, i: int, space: int, before: Seq<String>, after: Seq<String>)
    requires
        0 <= i < items.len(),
        forall|n: Seq<char>| has_name(before, n) <==> declared_before(items, i, space, n),
        item_space(items[i]) == space ==> forall|n: Seq<char>| #[trigger] has_name(after, n)
            <==> (has_name(before, n) || n == item_declared_name(items[i])),
        item_space(items[i]) != space ==> after == before,
    ensures
        forall|n: Seq<char>| has_name(after, n) <==> declared_before(items, i + 1, space, n),
{
    assert forall|n: Seq<char>| has_name(after, n) <==> declared_before(items, i + 1, space, n) by {
        if declared_before(items, i + 1, space, n) {
            let j = choose|j: int| 0 <= j < i + 1 && #[trigger] item_space(items[j]) == space && item_declared_name(items[j]) == n;
            if j < i {
                assert(declared_before(items, i, space, n));
            }
        }
        if declared_before(items, i, space, n) {
            let j = choose|j: int| 0 <= j < i && #[trigger] item_space(items[j]) == space && item_declared_name(items[j]) == n;
            assert(0 <= j < i + 1 && item_space(items[j]) == space && item_declared_name(items[j]) == n);
        }
        if item_space(items[i]) == space && n == item_declared_name(items[i]) {
            assert(0 <= i < i + 1 && item_space(items[i]) == space && item_declared_name(items[i]) == n);
        }
    }
}

/// One more item collected: the errors are those for the first `i + 1`
/// items.
proof fn lemma_collection_step(items: Seq<Item>, i: int, before: Seq<(Span, String)>, after: Seq<(Span, String)>, initial: Seq<(Span, String)>, duplicate: bool)
    requires
        0 <= i < items.len(),
        errors_view(before) == errors_view(initial) + collection_errors(items, i),
        duplicate == declared_before(items, i, item_space(items[i]), item_declared_name(items[i])),
        item_space(items[i]) >= 0 && duplicate ==> after.len() == before.len() + 1 && after.drop_last() == before
            && after.last().0 == item_decl_span(items[i])
            && after.last().1@ == duplicate_prefix(items[i]) + item_declared_name(items[i]) + "`"@,
        !(item_space(items[i]) >= 0 && duplicate) ==> after == before,
    ensures
        errors_view(after) == errors_view(initial) + collection_errors(items, i + 1),
{
    if item_space(items[i]) >= 0 && duplicate {
        assert(after =~= before.push(after.last()));
        assert(errors_view(after) =~= errors_view(before).push((after.last().0, after.last().1@)));
    }
}

/// Whether two type kinds have the same outermost constructor.
pub open spec fn same_shape(a: TyKind, b: TyKind) -> bool {
    ||| a is Unit && b is Unit
    ||| a is Bool && b is Bool
    ||| a is Never && b is Never
    ||| a is Int && b is Int
    ||| a is Path && b is Path
    ||| a is SelfTy && b is SelfTy
    ||| a is Array && b is Array
    ||| a is Ref && b is Ref
    ||| a is Fn && b is Fn
}

/// The name of the first variant, from position `i` on, that no arm named.
pub open spec fn first_unseen(variants: Seq<crate::ast::EnumVariant>, seen: Seq<String>, i: int) -> Option<Seq<char>>
    decreases variants.len() - i,
{
    if i < 0 || i >= variants.len() {
        None
    } else if !(exists|k: int| 0 <= k < seen.len() && seen[k]@ == variants[i].kind.name@) {
        Some(variants[i].kind.name@)
    } else {
        first_unseen(variants, seen, i + 1)
    }
}

/// Whether some arm's own pattern, not a sub-pattern, names the variant `v`.
pub open spec fn arm_names_variant(arms: Seq<MatchArm>, v: Seq<char>) -> bool {
    exists|k: int| 0 <= k < arms.len()
        && ((#[trigger] arms[k]).kind.pat.kind matches PatKind::EnumVariant { variant, .. } && variant@ == v)
}

/// Whether some arm's own pattern matches every value.
pub open spec fn has_catch_all_arm(arms: Seq<MatchArm>) -> bool {
    exists|k: int| 0 <= k < arms.len() && ((#[trigger] arms[k]).kind.pat.kind is Wildcard || arms[k].kind.pat.kind is Binding)
}

/// Whether a match on a value of type `ty` with these arms leaves a
/// variant of its enum unnamed: no arm matches everything, and some variant
/// of the enum `ty` names is named by no arm's own pattern.
pub open spec fn leaves_variant_unmatched(enums: Seq<(String, &EnumItem)>, ty: Ty, arms: Seq<MatchArm>) -> bool {
    &&& !has_catch_all_arm(arms)
    &&& ty.kind matches TyKind::Path { path, .. }
    &&& table_lookup(enums, join_segments(path.kind.segment_views())) matches Some(e)
    &&& exists|k: int| 0 <= k < e.kind.variants@.len() && !arm_names_variant(arms, (#[trigger] e.kind.variants@[k]).kind.name@)
}

/// Two tables with the same names, whose types are the same node for node,
/// find the same types.
proof fn lemma_lookup_same(a: Seq<(String, Ty)>, b: Seq<(String, Ty)>, n: Seq<char>)
    requires
        a.len() == b.len(),
        forall|k: int| 0 <= k < a.len() ==> (#[trigger] a[k]).0@ == b[k].0@ && ty_same(a[k].1, b[k].1),
    ensures
        table_lookup(a, n) is Some <==> table_lookup(b, n) is Some,
        table_lookup(a, n) is Some ==> ty_same(table_lookup(a, n)->0, table_lookup(b, n)->0),
    decreases a.len(),
{
    if a.len() > 0 {
        let a1 = a.drop_first();
        let b1 = b.drop_first();
        assert forall|k: int| 0 <= k < a1.len() implies (#[trigger] a1[k]).0@ == b1[k].0@ && ty_same(a1[k].1, b1[k].1) by {
            assert(a1[k] == a[k + 1] && b1[k] == b[k + 1]);
        }
        assert(a[0].0@ == b[0].0@ && ty_same(a[0].1, b[0].1));
        lemma_lookup_same(a1, b1, n);
    }
}

/// Types that are the same node for node leave the same variants unmatched.
proof fn lemma_unmatched_same(enums: Seq<(String, &EnumItem)>, a: Ty, b: Ty, arms: Seq<MatchArm>)
    requires
        ty_same(a, b),
    ensures
        leaves_variant_unmatched(enums, a, arms) == leaves_variant_unmatched(enums, b, arms),
{
}

/// Whether a block is only a `match` on a variable bound, in `locals`, to
/// a type whose variants the arms do not all name (see
/// `leaves_variant_unmatched`).
pub open spec fn unmatched_tail(enums: Seq<(String, &EnumItem)>, b: Block, locals: Seq<(String, Ty)>) -> bool {
    &&& b.kind.stmts@.len() == 0
    &&& b.kind.tail matches Some(t)
    &&& t.kind matches ExprKind::Match { scrutinee, arms }
    &&& scrutinee.kind matches ExprKind::Var(n)
    &&& table_lookup(locals, n@) matches Some(ty)
    &&& leaves_variant_unmatched(enums, ty, arms@)
}

/// The type of the last parameter named `n`.
pub open spec fn param_type(params: Seq<crate::ast::Param>, n: Seq<char>) -> Option<Ty>
    decreases params.len(),
{
    if params.len() == 0 {
        None
    } else if params.last().kind.name@ == n {
        Some(params.last().kind.ty)
    } else {
        param_type(params.drop_last(), n)
    }
}

/// Whether a function's body is only a `match` on one of its parameters,
/// of a type whose variants the arms do not all name (see
/// `leaves_variant_unmatched`).
pub open spec fn fn_match_unmatched(enums: Seq<(String, &EnumItem)>, f: FnItem) -> bool {
    &&& f.kind.body.kind matches ExprKind::Block(b)
    &&& b.kind.stmts@.len() == 0
    &&& b.kind.tail matches Some(t)
    &&& t.kind matches ExprKind::Match { scrutinee, arms }
    &&& scrutinee.kind matches ExprKind::Var(n)
    &&& param_type(f.kind.params@, n@) matches Some(ty)
    &&& leaves_variant_unmatched(enums, ty, arms@)
}

/// The span of the `match` a function's body is.
pub open spec fn body_match_span(f: FnItem) -> Span {
    f.kind.body.kind->Block_0.kind.tail->0.span
}

/// Whether such a function's match is reported as not exhaustive.
pub open spec fn fn_match_reported(enums: Seq<(String, &EnumItem)>, f: FnItem, errors: Seq<(Span, String)>) -> bool {
    fn_match_unmatched(enums, f) ==> exists|v: Seq<char>| #[trigger] reported(errors, not_exhaustive_error(body_match_span(f), v))
}

/// A report stays as errors are added.
proof fn lemma_fn_match_kept(enums: Seq<(String, &EnumItem)>, f: FnItem, a: Seq<(Span, String)>, b: Seq<(Span, String)>)
    requires
        errors_kept(a, b),
        fn_match_reported(enums, f, a),
    ensures
        fn_match_reported(enums, f, b),
{
    if fn_match_unmatched(enums, f) {
        let v = choose|v: Seq<char>| #[trigger] reported(a, not_exhaustive_error(body_match_span(f), v));
        lemma_reported_kept(a, b, not_exhaustive_error(body_match_span(f), v));
    }
}

/// Whether every function the program's function table keeps, whose body
/// is only a `match` on a parameter leaving an enum variant unmatched, is
/// reported as not exhaustive (`table` being the program's enum table).
pub open spec fn fn_matches_rejected(items: Seq<Item>, errors: Seq<(Span, String)>) -> bool {
    forall|table: Seq<(String, &EnumItem)>, j: int| #[trigger] enum_table_of(table, items, items.len() as int)
        && 0 <= j < items.len() && ((#[trigger] items[j]).kind matches ItemKind::Fn(f)
            && last_fn_index(items, items.len() as int, f.kind.name@) == Some(j))
        ==> fn_match_reported(table, items[j].kind->Fn_0, errors)
}

/// Two enum tables of the same items find the same enums.
proof fn lemma_enum_tables_agree(a: Seq<(String, &EnumItem)>, b: Seq<(String, &EnumItem)>, items: Seq<Item>, n: Seq<char>)
    requires
        enum_table_of(a, items, items.len() as int),
        enum_table_of(b, items, items.len() as int),
    ensures
        table_lookup(a, n) == table_lookup(b, n),
{
    match last_enum_index(items, items.len() as int, n) {
        Some(j) => {},
        None => {},
    }
}

/// The report of a function's match survives tables that agree and errors
/// put before it.
proof fn lemma_fn_match_moved(a: Seq<(String, &EnumItem)>, b: Seq<(String, &EnumItem)>, f: FnItem,
    before: Seq<(Span, String)>, later: Seq<(Span, String)>)
    requires
        forall|n: Seq<char>| #[trigger] table_lookup(a, n) == table_lookup(b, n),
        fn_match_reported(a, f, later),
    ensures
        fn_match_reported(b, f, before + later),
{
    if fn_match_unmatched(b, f) {
        let body = f.kind.body.kind->Block_0;
        let t = *body.kind.tail->0;
        if let ExprKind::Match { scrutinee, arms } = t.kind {
            if let ExprKind::Var(n) = scrutinee.kind {
                let ty = param_type(f.kind.params@, n@)->0;
                if let TyKind::Path { path, .. } = ty.kind {
                    assert(table_lookup(a, join_segments(path.kind.segment_views()))
                        == table_lookup(b, join_segments(path.kind.segment_views())));
                }
                assert(leaves_variant_unmatched(a, ty, arms@));
            }
        }
        assert(fn_match_unmatched(a, f));
        let v = choose|v: Seq<char>| #[trigger] reported(later, not_exhaustive_error(body_match_span(f), v));
        lemma_reported_append(before, later, not_exhaustive_error(body_match_span(f), v));
    }
}

/// The error of a match that misses the variant `v`.
pub open spec fn not_exhaustive_error(span: Span, v: Seq<char>) -> (Span, Seq<char>) {
    (span, "match is not exhaustive: missing `"@ + v + "`"@)
}

/// Some variant at or after `i` that is not seen makes the search find one.
proof fn lemma_first_unseen_found(variants: Seq<crate::ast::EnumVariant>, seen: Seq<String>, i: int, k: int)
    requires
        0 <= i <= k < variants.len(),
        !(exists|m: int| 0 <= m < seen.len() && seen[m]@ == variants[k].kind.name@),
    ensures
        first_unseen(variants, seen, i) is Some,
    decreases k - i,
{
    if i < k && (exists|m: int| 0 <= m < seen.len() && seen[m]@ == variants[i].kind.name@) {
        lemma_first_unseen_found(variants, seen, i + 1, k);
    }
}

/// The variant a match is reported as missing: none when an arm matches
/// everything or the scrutinee is not of a known enum type, otherwise the
/// first variant of the enum that no arm names.
pub open spec fn missing_variant(enums: Seq<(String, &EnumItem)>, scrutinee: Ty, seen: Seq<String>, has_wildcard: bool) -> Option<Seq<char>> {
    if has_wildcard {
        None
    } else {
        match scrutinee.kind {
            TyKind::Path { path, .. } => match table_lookup(enums, join_segments(path.kind.segment_views())) {
                Some(e) => first_unseen(e.kind.variants@, seen, 0),
                None => None,
            },
            _ => None,
        }
    }
}

/// The diagnostics found by checking a program.
#[derive(Debug)]
pub struct TypeCheckReport {
    pub diagnostics: Vec<Diagnostic>,
}

impl TypeCheckReport {
    pub fn is_ok(&self) -> (r: bool)
        ensures
            r == (self.diagnostics@.len() == 0),
    {
        self.diagnostics.len() == 0
    }
}

/// Type-checks a parsed program: the report holds every error found, in the
/// order the checker met them. The checker reports errors only.
pub fn check_program(program: &Program) -> (r: TypeCheckReport)
    ensures
        forall|k: int| 0 <= k < r.diagnostics@.len() ==>
            (#[trigger] r.diagnostics@[k]).severity == crate::diagnostic::DiagnosticSeverity::Error,
        ({
            let declared = collection_errors(program.kind.items@, program.kind.items@.len() as int);
            &&& declared.len() <= r.diagnostics@.len()
            &&& forall|k: int| 0 <= k < declared.len() ==>
                (#[trigger] r.diagnostics@[k]).span == declared[k].0 && r.diagnostics@[k].message@ == declared[k].1
        }),
        forall|j: int| 0 <= j < program.kind.items@.len() ==> ((#[trigger] program.kind.items@[j]).kind matches ItemKind::Const(c)
            ==> ((last_const_index(program.kind.items@, program.kind.items@.len() as int, c.kind.name@) == Some(j)
                && overflowing_const(c)) ==> exists|k: int| 0 <= k < r.diagnostics@.len()
                    && (#[trigger] r.diagnostics@[k]).span == const_fit_error(c.kind.name@, c).0
                    && r.diagnostics@[k].message@ == const_fit_error(c.kind.name@, c).1)),
        forall|j: int| 0 <= j < program.kind.items@.len() ==> ((#[trigger] program.kind.items@[j]).kind matches ItemKind::Fn(f)
            ==> (last_fn_index(program.kind.items@, program.kind.items@.len() as int, f.kind.name@) == Some(j)
                ==> (forall|k: int| 0 <= k < f.kind.params@.len()
                    ==> #[trigger] interface_param_diagnosed(program.kind.items@, f, k, r.diagnostics@)))),
        forall|j: int, x: int| 0 <= j < program.kind.items@.len() && ((#[trigger] program.kind.items@[j]).kind matches ItemKind::Impl(im)
            && (im.kind.interface matches Some(iref)
                && last_interface_index(program.kind.items@, program.kind.items@.len() as int, ref_name(iref)) == Some(x)))
            ==> ((#[trigger] program.kind.items@[x]).kind matches ItemKind::Interface(it)
                ==> (forall|m: int| 0 <= m < it.kind.members@.len() ==> #[trigger] missing_method_diagnosed(
                    program.kind.items@[j].kind->Impl_0, ref_name(program.kind.items@[j].kind->Impl_0.kind.interface->0), it, m, r.diagnostics@))),
        forall|w: Seq<Seq<char>>| w.len() >= 2 && #[trigger] inheritance_walk(program.kind.items@, w) && w[0] == w.last()
            ==> exists|d: int| 0 <= d < r.diagnostics@.len() && (#[trigger] r.diagnostics@[d]).message@ == cycle_message(w[0]),
        forall|table: Seq<(String, &ConstItem)>, j: int, k: int| #[trigger] const_table_of(table, program.kind.items@, program.kind.items@.len() as int)
            && 0 <= j < program.kind.items@.len() && ((#[trigger] program.kind.items@[j]).kind matches ItemKind::Fn(f)
                && last_fn_index(program.kind.items@, program.kind.items@.len() as int, f.kind.name@) == Some(j))
            && 0 <= k < program.kind.items@[j].kind->Fn_0.kind.where_predicates@.len()
            ==> #[trigger] const_eq_failure_diagnosed(program.kind.items@[j].kind->Fn_0, k, table, r.diagnostics@),
        forall|j1: int, j2: int| 0 <= j1 < program.kind.items@.len() && 0 <= j2 < program.kind.items@.len()
            && ((#[trigger] program.kind.items@[j1]).kind matches ItemKind::Impl(a)
                && ((#[trigger] program.kind.items@[j2]).kind matches ItemKind::Impl(b)
                && a != b && a.kind.interface is Some && b.kind.interface is Some
                && ref_name(a.kind.interface->0) == ref_name(b.kind.interface->0)
                && (same_primitive(a.kind.self_ty, b.kind.self_ty) || same_nominal(a.kind.self_ty, b.kind.self_ty))))
            ==> exists|d: int| 0 <= d < r.diagnostics@.len()
                && (#[trigger] r.diagnostics@[d]).message@ == conflicting_impl_message(program.kind.items@[j1].kind->Impl_0),
        collection_errors(program.kind.items@, program.kind.items@.len() as int).len() == 0 ==> forall|j: int|
            0 <= j < program.kind.items@.len() && ((#[trigger] program.kind.items@[j]).kind matches ItemKind::Const(c)
                && last_const_index(program.kind.items@, program.kind.items@.len() as int, c.kind.name@) == Some(j)
                && closed_const(c.kind.expr) && first_const_name(program.kind.items@, c.kind.name@))
            ==> ({
                let first = first_evaluation_errors(program.kind.items@[j].kind->Const_0.kind.name@, program.kind.items@[j].kind->Const_0);
                &&& r.diagnostics@.len() >= first.len()
                &&& forall|i: int| 0 <= i < first.len() ==> (#[trigger] r.diagnostics@[i]).span == first[i].0
                    && r.diagnostics@[i].message@ == first[i].1
            }),
        fitting_constants_only(program.kind.items@) ==> r.diagnostics@.len()
            == collection_errors(program.kind.items@, program.kind.items@.len() as int).len(),
        forall|table: Seq<(String, &EnumItem)>, j: int| #[trigger] enum_table_of(table, program.kind.items@, program.kind.items@.len() as int)
            && 0 <= j < program.kind.items@.len() && ((#[trigger] program.kind.items@[j]).kind matches ItemKind::Fn(f)
                && last_fn_index(program.kind.items@, program.kind.items@.len() as int, f.kind.name@) == Some(j))
            ==> fn_match_diagnosed(table, program.kind.items@[j].kind->Fn_0, r.diagnostics@),
        forall|j: int, k: int| 0 <= j < program.kind.items@.len() && ((#[trigger] program.kind.items@[j]).kind matches ItemKind::Enum(e)
            && last_enum_index(program.kind.items@, program.kind.items@.len() as int, e.kind.name@) == Some(j))
            && 0 <= k < program.kind.items@[j].kind->Enum_0.kind.variants@.len()
            ==> #[trigger] variant_repeats_diagnosed(program.kind.items@[j].kind->Enum_0, k, r.diagnostics@),
{
    let mut checker = Checker::new();
    checker.check(program);
    let ghost declared = collection_errors(program.kind.items@, program.kind.items@.len() as int);
    let mut diagnostics: Vec<Diagnostic> = Vec::new();
    let mut i: usize = 0;
    while i < checker.errors.len()
        invariant
            0 <= i <= checker.errors@.len(),
            declared == collection_errors(program.kind.items@, program.kind.items@.len() as int),
            errors_view(checker.errors@).len() >= declared.len(),
            errors_view(checker.errors@).subrange(0, declared.len() as int) == declared,
            overflows_reported(program.kind.items@, checker.errors@),
            interface_params_rejected(program.kind.items@, checker.errors@),
            missing_methods_rejected(program.kind.items@, checker.errors@),
            inheritance_cycles_reported(program.kind.items@, checker.errors@),
            const_predicates_rejected(program.kind.items@, checker.errors@),
            impl_conflicts_rejected(program.kind.items@, checker.errors@),
            fn_matches_rejected(program.kind.items@, checker.errors@),
            enum_duplicates_rejected(program.kind.items@, checker.errors@),
            first_constant_reported_first(program.kind.items@, checker.errors@),
            diagnostics@.len() == i,
            forall|k: int| 0 <= k < i ==> {
                &&& (#[trigger] diagnostics@[k]).severity == crate::diagnostic::DiagnosticSeverity::Error
                &&& diagnostics@[k].span == checker.errors@[k].0
                &&& diagnostics@[k].message == checker.errors@[k].1
            },
        decreases checker.errors@.len() - i,
    {
        let (span, message) = &checker.errors[i];
        diagnostics.push(Diagnostic::error(*span, message.clone()));
        i = i + 1;
    }
    proof {
        assert forall|k: int| 0 <= k < declared.len() implies
            (#[trigger] diagnostics@[k]).span == declared[k].0 && diagnostics@[k].message@ == declared[k].1 by {
            assert(errors_view(checker.errors@).subrange(0, declared.len() as int)[k] == errors_view(checker.errors@)[k]);
        }
        let items = program.kind.items@;
        assert forall|j: int| 0 <= j < items.len() implies ((#[trigger] items[j]).kind matches ItemKind::Const(c)
            ==> ((last_const_index(items, items.len() as int, c.kind.name@) == Some(j) && overflowing_const(c))
                ==> exists|k: int| 0 <= k < diagnostics@.len()
                    && (#[trigger] diagnostics@[k]).span == const_fit_error(c.kind.name@, c).0
                    && diagnostics@[k].message@ == const_fit_error(c.kind.name@, c).1)) by {
            if let ItemKind::Const(c) = items[j].kind {
                if last_const_index(items, items.len() as int, c.kind.name@) == Some(j) && overflowing_const(c) {
                    let e = const_fit_error(c.kind.name@, c);
                    assert(reported(checker.errors@, e));
                    let k = choose|k: int| 0 <= k < checker.errors@.len() && (checker.errors@[k].0, checker.errors@[k].1@) == e;
                    assert(diagnostics@[k].span == e.0 && diagnostics@[k].message@ == e.1);
                }
            }
        }
        let in_program = |n: Seq<char>| declares_interface(items, n);
        assert forall|j: int| 0 <= j < items.len() implies ((#[trigger] items[j]).kind matches ItemKind::Fn(f)
            ==> (last_fn_index(items, items.len() as int, f.kind.name@) == Some(j)
                ==> forall|k: int| 0 <= k < f.kind.params@.len()
                    ==> #[trigger] interface_param_diagnosed(items, f, k, diagnostics@))) by {
            if let ItemKind::Fn(f) = items[j].kind {
                if last_fn_index(items, items.len() as int, f.kind.name@) == Some(j) {
                    assert(interface_params_reported(f, in_program, checker.errors@));
                    assert forall|k: int| 0 <= k < f.kind.params@.len()
                        implies #[trigger] interface_param_diagnosed(items, f, k, diagnostics@) by {
                        assert(interface_param_reported(f, k, in_program, checker.errors@));
                        let ty = f.kind.params@[k].kind.ty;
                        if let TyKind::Path { path, .. } = ty.kind {
                            let name = join_segments(path.kind.segment_views());
                            if !type_param_named(f.kind.generics@, name) && declares_interface(items, name) {
                                let e = interface_value_error(ty.span, name);
                                let d = choose|d: int| 0 <= d < checker.errors@.len()
                                    && (checker.errors@[d].0, checker.errors@[d].1@) == e;
                                assert(diagnostics@[d].span == e.0 && diagnostics@[d].message@ == e.1);
                            }
                        }
                    }
                }
            }
        }
    }
    proof {
        let items = program.kind.items@;
        if collection_errors(items, items.len() as int).len() == 0 {
            assert forall|j: int| 0 <= j < items.len() && ((#[trigger] items[j]).kind matches ItemKind::Const(c)
                && last_const_index(items, items.len() as int, c.kind.name@) == Some(j)
                && closed_const(c.kind.expr) && first_const_name(items, c.kind.name@))
                implies ({
                    let first = first_evaluation_errors(items[j].kind->Const_0.kind.name@, items[j].kind->Const_0);
                    &&& diagnostics@.len() >= first.len()
                    &&& forall|i: int| 0 <= i < first.len() ==> (#[trigger] diagnostics@[i]).span == first[i].0
                        && diagnostics@[i].message@ == first[i].1
                }) by {
                let first = first_evaluation_errors(items[j].kind->Const_0.kind.name@, items[j].kind->Const_0);
                assert(errors_view(checker.errors@).subrange(0, first.len() as int) == first);
                assert forall|i: int| 0 <= i < first.len() implies (#[trigger] diagnostics@[i]).span == first[i].0
                    && diagnostics@[i].message@ == first[i].1 by {
                    assert(errors_view(checker.errors@).subrange(0, first.len() as int)[i] == errors_view(checker.errors@)[i]);
                }
            }
        }
        assert forall|j1: int, j2: int| 0 <= j1 < items.len() && 0 <= j2 < items.len()
            && ((#[trigger] items[j1]).kind matches ItemKind::Impl(a) && ((#[trigger] items[j2]).kind matches ItemKind::Impl(b)
                && a != b && a.kind.interface is Some && b.kind.interface is Some
                && ref_name(a.kind.interface->0) == ref_name(b.kind.interface->0)
                && (same_primitive(a.kind.self_ty, b.kind.self_ty) || same_nominal(a.kind.self_ty, b.kind.self_ty))))
            implies exists|d: int| 0 <= d < diagnostics@.len()
                && (#[trigger] diagnostics@[d]).message@ == conflicting_impl_message(items[j1].kind->Impl_0) by {
            let k = choose|k: int| 0 <= k < checker.errors@.len() && checker.errors@[k].1@ == conflicting_impl_message(items[j1].kind->Impl_0);
            assert(diagnostics@[k].message == checker.errors@[k].1);
        }
        assert forall|table: Seq<(String, &ConstItem)>, j: int, k: int| #[trigger] const_table_of(table, items, items.len() as int)
            && 0 <= j < items.len() && ((#[trigger] items[j]).kind matches ItemKind::Fn(f)
                && last_fn_index(items, items.len() as int, f.kind.name@) == Some(j))
            && 0 <= k < items[j].kind->Fn_0.kind.where_predicates@.len()
            implies #[trigger] const_eq_failure_diagnosed(items[j].kind->Fn_0, k, table, diagnostics@) by {
            let f = items[j].kind->Fn_0;
            assert(fn_const_predicates_reported(f, table, checker.errors@));
            assert(const_eq_failure_reported(f.kind.where_predicates@[k], table, f.kind.generics@, checker.errors@));
            let p = f.kind.where_predicates@[k];
            if let WherePredicateKind::ConstEq { lhs, rhs } = p.kind {
                if names_closed_in(lhs, table, f.kind.generics@) && names_closed_in(rhs, table, f.kind.generics@)
                    && const_value_with(lhs, table) is Some && const_value_with(rhs, table) is Some
                    && const_value_with(lhs, table) != const_value_with(rhs, table) {
                    let e = const_eq_error(p.span, const_value_with(lhs, table)->0, const_value_with(rhs, table)->0);
                    let d = choose|d: int| 0 <= d < checker.errors@.len() && (checker.errors@[d].0, checker.errors@[d].1@) == e;
                    assert(diagnostics@[d].span == e.0 && diagnostics@[d].message@ == e.1);
                }
            }
        }
        assert forall|w: Seq<Seq<char>>| w.len() >= 2 && #[trigger] inheritance_walk(items, w) && w[0] == w.last()
            implies exists|d: int| 0 <= d < diagnostics@.len() && (#[trigger] diagnostics@[d]).message@ == cycle_message(w[0]) by {
            assert(cycle_reported(checker.errors@, w[0]));
            let k = choose|k: int| 0 <= k < checker.errors@.len() && checker.errors@[k].1@ == cycle_message(w[0]);
            assert(diagnostics@[k].message == checker.errors@[k].1);
        }
        assert forall|j: int, x: int| 0 <= j < items.len() && ((#[trigger] items[j]).kind matches ItemKind::Impl(im)
            && (im.kind.interface matches Some(iref)
                && last_interface_index(items, items.len() as int, ref_name(iref)) == Some(x)))
            implies ((#[trigger] items[x]).kind matches ItemKind::Interface(it)
                ==> (forall|m: int| 0 <= m < it.kind.members@.len() ==> #[trigger] missing_method_diagnosed(
                    items[j].kind->Impl_0, ref_name(items[j].kind->Impl_0.kind.interface->0), it, m, diagnostics@))) by {
            let im = items[j].kind->Impl_0;
            let iref = im.kind.interface->0;
            if let ItemKind::Interface(it) = items[x].kind {
                assert forall|m: int| 0 <= m < it.kind.members@.len() implies #[trigger] missing_method_diagnosed(
                    im, ref_name(iref), it, m, diagnostics@) by {
                    if let InterfaceMemberKind::Method(sig) = it.kind.members@[m].kind {
                        if !impl_has_method(im, sig.kind.name@) {
                            let e = missing_method_error(im, ref_name(iref), sig.kind.name@);
                            assert(reported(checker.errors@, e));
                            let d = choose|d: int| 0 <= d < checker.errors@.len() && (checker.errors@[d].0, checker.errors@[d].1@) == e;
                            assert(diagnostics@[d].span == e.0 && diagnostics@[d].message@ == e.1);
                        }
                    }
                }
            }
        }
    }
    proof {
        let items = program.kind.items@;
        assert forall|table: Seq<(String, &EnumItem)>, j: int| #[trigger] enum_table_of(table, items, items.len() as int)
            && 0 <= j < items.len() && ((#[trigger] items[j]).kind matches ItemKind::Fn(f)
                && last_fn_index(items, items.len() as int, f.kind.name@) == Some(j))
            implies fn_match_diagnosed(table, items[j].kind->Fn_0, diagnostics@) by {
            let f = items[j].kind->Fn_0;
            assert(fn_match_reported(table, f, checker.errors@));
            if fn_match_unmatched(table, f) {
                let v = choose|v: Seq<char>| #[trigger] reported(checker.errors@, not_exhaustive_error(body_match_span(f), v));
                let e = not_exhaustive_error(body_match_span(f), v);
                let d = choose|d: int| 0 <= d < checker.errors@.len() && (checker.errors@[d].0, checker.errors@[d].1@) == e;
                assert(diagnostics@[d].span == e.0 && diagnostics@[d].message@ == e.1);
                assert(diagnosed(diagnostics@, e));
            }
        }
        assert forall|j: int, k: int| 0 <= j < items.len() && ((#[trigger] items[j]).kind matches ItemKind::Enum(e)
            && last_enum_index(items, items.len() as int, e.kind.name@) == Some(j))
            && 0 <= k < items[j].kind->Enum_0.kind.variants@.len()
            implies #[trigger] variant_repeats_diagnosed(items[j].kind->Enum_0, k, diagnostics@) by {
            let e = items[j].kind->Enum_0;
            assert(enum_variants_reported(e, checker.errors@));
            assert(variant_repeats_reported(e, k, checker.errors@));
            if closed_discriminant(e.kind.variants@[k]) is Some && exists|q: int| 0 <= q < k
                && closed_discriminant(#[trigger] e.kind.variants@[q]) == closed_discriminant(e.kind.variants@[k]) {
                let x = duplicate_discriminant_error(e.kind.variants@[k].kind.discriminant->0.span,
                    closed_discriminant(e.kind.variants@[k])->0);
                let d = choose|d: int| 0 <= d < checker.errors@.len() && (checker.errors@[d].0, checker.errors@[d].1@) == x;
                assert(diagnostics@[d].span == x.0 && diagnostics@[d].message@ == x.1);
            }
            if exists|q: int| 0 <= q < k && (#[trigger] e.kind.variants@[q]).kind.name@ == e.kind.variants@[k].kind.name@ {
                let x = duplicate_variant_error(e.kind.variants@[k]);
                let d = choose|d: int| 0 <= d < checker.errors@.len() && (checker.errors@[d].0, checker.errors@[d].1@) == x;
                assert(diagnostics@[d].span == x.0 && diagnostics@[d].message@ == x.1);
            }
        }
    }
    TypeCheckReport { diagnostics }
}

// ---------------------------------------------------------------------
// Integer ranges

/// Whether `v` is in the range of the integer type.
pub open spec fn fits_spec(v: int, ty: IntTy) -> bool {
    let b = width_bits(ty.width);
    match ty.signedness {
        Signedness::Unsigned => 0 <= v <= pow2(b) - 1,
        Signedness::Signed => -(pow2((b - 1) as nat) as int) <= v <= pow2((b - 1) as nat) - 1,
    }
}

/// The range of an integer type of `b` bits (the width its name gives, 64
/// for the pointer-sized ones): an unsigned type holds exactly the values
/// from 0 up to 2^b - 1, so no negative value at all, and a signed type
/// exactly those from -2^(b-1) up to 2^(b-1) - 1; zero fits every type.
pub proof fn law_integer_type_ranges(v: int, ty: IntTy)
    ensures
        ty.signedness is Unsigned ==> (fits_spec(v, ty) <==> (0 <= v && v < pow2(width_bits(ty.width)))),
        ty.signedness is Signed ==> (fits_spec(v, ty) <==> (-v <= pow2((width_bits(ty.width) - 1) as nat)
            && v < pow2((width_bits(ty.width) - 1) as nat))),
        (ty.signedness is Unsigned && v < 0) ==> !fits_spec(v, ty),
        fits_spec(0, ty),
{
    vstd::arithmetic::power2::lemma_pow2_pos(width_bits(ty.width));
    vstd::arithmetic::power2::lemma_pow2_pos((width_bits(ty.width) - 1) as nat);
}

/// Fitting is an interval: a value between two values that fit a type fits
/// it too.
pub proof fn law_fitting_values_are_an_interval(a: int, b: int, c: int, ty: IntTy)
    requires
        fits_spec(a, ty),
        fits_spec(c, ty),
        a <= b <= c,
    ensures
        fits_spec(b, ty),
{
}

/// Whether the value is in the range of the integer type.
pub fn fits_int_ty(value: &IntValue, ty: IntTy) -> (r: bool)
    ensures
        r == fits_spec(value@, ty),
{
    let bits = ty.bits() as usize;
    let one = IntValue::from_u32(1);
    match ty.signedness {
        Signedness::Unsigned => {
            if value.is_negative() {
                return false;
            }
            let max = int_sub(&int_shl(&one, bits), &one);
            int_le(value, &max)
        },
        Signedness::Signed => {
            let half = int_shl(&one, bits - 1);
            let min = half.neg();
            let max = int_sub(&half, &one);
            int_le(&min, value) && int_le(value, &max)
        },
    }
}


// ---------------------------------------------------------------------
// Rendering types and constant expressions

fn const_binop_str(op: ConstBinaryOp) -> (r: &'static str)
    ensures
        r@ == const_binop_name(op),
{
    match op {
        ConstBinaryOp::Add => "Add",
        ConstBinaryOp::Sub => "Sub",
        ConstBinaryOp::Mul => "Mul",
        ConstBinaryOp::Div => "Div",
        ConstBinaryOp::Rem => "Rem",
        ConstBinaryOp::Shl => "Shl",
        ConstBinaryOp::Shr => "Shr",
        ConstBinaryOp::BitAnd => "BitAnd",
        ConstBinaryOp::BitOr => "BitOr",
        ConstBinaryOp::BitXor => "BitXor",
    }
}

/// Appends how a type is written.
fn write_ty(out: &mut String, ty: &Ty)
    ensures
        final(out)@ == old(out)@ + ty_text(*ty),
    decreases ty,
{
    match &ty.kind {
        TyKind::Unit => push_str(out, "()"),
        TyKind::Bool => push_str(out, "bool"),
        TyKind::Never => push_str(out, "!"),
        TyKind::Int(i) => {
            let name = i.to_string();
            push_string(out, &name);
        },
        TyKind::SelfTy => push_str(out, "Self"),
        TyKind::Path { path, args } => {
            let name = path_name(path);
            push_string(out, &name);
            if args.len() > 0 {
                push_str(out, "<");
                write_args(out, args);
                push_str(out, ">");
                proof {
                    assert(out@ =~= old(out)@ + ty_text(*ty));
                }
            }
        },
        TyKind::Array { elem, len } => {
            push_str(out, "[");
            write_ty(out, elem);
            push_str(out, "; ");
            write_const(out, len);
            push_str(out, "]");
            proof {
                assert(out@ =~= old(out)@ + ty_text(*ty));
            }
        },
        TyKind::Ref { mutability, ty: inner } => {
            match mutability {
                Mutability::Shared => push_str(out, "&"),
                Mutability::Mutable => push_str(out, "&mut "),
            }
            write_ty(out, inner);
            proof {
                assert(out@ =~= old(out)@ + ty_text(*ty));
            }
        },
        TyKind::Fn { params, ret } => {
            push_str(out, "fn(");
            write_tys(out, params);
            push_str(out, ") -> ");
            write_ty(out, ret);
            proof {
                assert(out@ =~= old(out)@ + ty_text(*ty));
            }
        },
    }
}

fn write_tys(out: &mut String, tys: &Vec<Ty>)
    ensures
        final(out)@ == old(out)@ + tys_text(tys@),
    decreases tys,
{
    let mut i: usize = 0;
    proof {
        assert(tys@.subrange(0, 0) =~= Seq::<Ty>::empty());
        assert(out@ =~= old(out)@ + tys_text(tys@.subrange(0, 0)));
    }
    while i < tys.len()
        invariant
            0 <= i <= tys@.len(),
            out@ == old(out)@ + tys_text(tys@.subrange(0, i as int)),
        decreases tys@.len() - i,
    {
        let ghost before = out@;
        if i > 0 {
            push_str(out, ", ");
        }
        write_ty(out, &tys[i]);
        proof {
            let t = tys@.subrange(0, i as int + 1);
            assert(t.subrange(0, t.len() - 1) =~= tys@.subrange(0, i as int));
            if i == 0 {
                assert(out@ =~= old(out)@ + tys_text(t));
            } else {
                assert(out@ =~= old(out)@ + tys_text(t));
            }
        }
        i = i + 1;
    }
    proof {
        assert(tys@.subrange(0, tys@.len() as int) =~= tys@);
    }
}

fn write_args(out: &mut String, args: &Vec<GenericArg>)
    ensures
        final(out)@ == old(out)@ + args_text(args@),
    decreases args,
{
    let mut i: usize = 0;
    proof {
        assert(args@.subrange(0, 0) =~= Seq::<GenericArg>::empty());
        assert(out@ =~= old(out)@ + args_text(args@.subrange(0, 0)));
    }
    while i < args.len()
        invariant
            0 <= i <= args@.len(),
            out@ == old(out)@ + args_text(args@.subrange(0, i as int)),
        decreases args@.len() - i,
    {
        if i > 0 {
            push_str(out, ", ");
        }
        write_arg(out, &args[i]);
        proof {
            let t = args@.subrange(0, i as int + 1);
            assert(t.subrange(0, t.len() - 1) =~= args@.subrange(0, i as int));
            assert(out@ =~= old(out)@ + args_text(t));
        }
        i = i + 1;
    }
    proof {
        assert(args@.subrange(0, args@.len() as int) =~= args@);
    }
}

fn write_arg(out: &mut String, arg: &GenericArg)
    ensures
        final(out)@ == old(out)@ + arg_text(*arg),
    decreases arg,
{
    match &arg.kind {
        GenericArgKind::Ty(t) => write_ty(out, t),
        GenericArgKind::Const(e) => write_const(out, e),
    }
}

/// Appends how a constant expression is written.
fn write_const(out: &mut String, e: &ConstExpr)
    ensures
        final(out)@ == old(out)@ + const_text(*e),
    decreases e,
{
    match &e.kind {
        ConstExprKind::IntLit(v) => {
            let text = int_to_string(v);
            push_string(out, &text);
        },
        ConstExprKind::Path(p) => {
            let name = path_name(p);
            push_string(out, &name);
        },
        ConstExprKind::Param(n) => push_string(out, n),
        ConstExprKind::AssocConst { ty, interface, name } => {
            push_str(out, "<");
            write_ty(out, ty);
            push_str(out, " as ");
            let iname = path_name(interface);
            push_string(out, &iname);
            push_str(out, ">::");
            push_string(out, name);
            proof {
                assert(out@ =~= old(out)@ + const_text(*e));
            }
        },
        ConstExprKind::Unary { op, expr } => {
            match op {
                ConstUnaryOp::Plus => push_str(out, "+"),
                ConstUnaryOp::Neg => push_str(out, "-"),
            }
            write_const(out, expr);
            proof {
                assert(out@ =~= old(out)@ + const_text(*e));
            }
        },
        ConstExprKind::Binary { op, lhs, rhs } => {
            push_str(out, "(");
            write_const(out, lhs);
            push_str(out, " ");
            push_str(out, const_binop_str(*op));
            push_str(out, " ");
            write_const(out, rhs);
            push_str(out, ")");
            proof {
                assert(out@ =~= old(out)@ + const_text(*e));
            }
        },
        ConstExprKind::Cast { expr, ty } => {
            write_const(out, expr);
            push_str(out, " as ");
            let name = ty.to_string();
            push_string(out, &name);
            proof {
                assert(out@ =~= old(out)@ + const_text(*e));
            }
        },
    }
}

/// How a type is written in diagnostics.
pub fn ty_display(ty: &Ty) -> (r: String)
    ensures
        r@ == ty_text(*ty),
{
    let mut out = String::new();
    write_ty(&mut out, ty);
    proof {
        assert(out@ =~= ty_text(*ty));
    }
    out
}

/// How a constant expression is written in diagnostics.
pub fn const_display(e: &ConstExpr) -> (r: String)
    ensures
        r@ == const_text(*e),
{
    let mut out = String::new();
    write_const(&mut out, e);
    proof {
        assert(out@ =~= const_text(*e));
    }
    out
}


// ---------------------------------------------------------------------
// Name tables and ordering

/// Lexicographic order of character sequences (the order of `str`).
pub open spec fn chars_lt(a: Seq<char>, b: Seq<char>) -> bool
    decreases a.len(),
{
    if b.len() == 0 {
        false
    } else if a.len() == 0 {
        true
    } else if a[0] != b[0] {
        (a[0] as u32) < (b[0] as u32)
    } else {
        chars_lt(a.drop_first(), b.drop_first())
    }
}

/// Whether `n` is before the name of every other constant the items
/// declare.
pub open spec fn first_const_name(items: Seq<Item>, n: Seq<char>) -> bool {
    forall|i: int| 0 <= i < items.len() && ((#[trigger] items[i]).kind matches ItemKind::Const(d) && d.kind.name@ != n)
        ==> chars_lt(n, items[i].kind->Const_0.kind.name@)
}

/// Whether, when no item redeclares a name, the report opens with the
/// errors of evaluating the constant whose name comes first, when its
/// expression is closed: the checker evaluates constants in name order.
pub open spec fn first_constant_reported_first(items: Seq<Item>, errors: Seq<(Span, String)>) -> bool {
    collection_errors(items, items.len() as int).len() == 0 ==> forall|j: int| 0 <= j < items.len()
        && ((#[trigger] items[j]).kind matches ItemKind::Const(c)
            && last_const_index(items, items.len() as int, c.kind.name@) == Some(j)
            && closed_const(c.kind.expr) && first_const_name(items, c.kind.name@))
        ==> ({
            let first = first_evaluation_errors(items[j].kind->Const_0.kind.name@, items[j].kind->Const_0);
            &&& errors.len() >= first.len()
            &&& errors_view(errors).subrange(0, first.len() as int) == first
        })
}

/// Whether `n` is before every other name of the table.
pub open spec fn first_name<T>(table: Seq<(String, T)>, n: Seq<char>) -> bool {
    forall|k: int| 0 <= k < table.len() && #[trigger] table[k].0@ != n ==> chars_lt(n, table[k].0@)
}

/// No sequence is before itself.
pub proof fn lemma_chars_lt_irreflexive(a: Seq<char>)
    ensures
        !chars_lt(a, a),
    decreases a.len(),
{
    if a.len() > 0 {
        lemma_chars_lt_irreflexive(a.drop_first());
    }
}

/// The order is transitive.
pub proof fn lemma_chars_lt_transitive(a: Seq<char>, b: Seq<char>, c: Seq<char>)
    requires
        chars_lt(a, b),
        chars_lt(b, c),
    ensures
        chars_lt(a, c),
    decreases a.len(),
{
    if a.len() > 0 && b.len() > 0 && c.len() > 0 && a[0] == b[0] && b[0] == c[0] {
        lemma_chars_lt_transitive(a.drop_first(), b.drop_first(), c.drop_first());
    }
}

/// Whether `a` comes before `b` in lexicographic order.
pub fn str_lt(a: &str, b: &str) -> (r: bool)
    ensures
        r == chars_lt(a@, b@),
{
    let n = a.unicode_len();
    let m = b.unicode_len();
    let mut i: usize = 0;
    proof {
        assert(a@.subrange(0, n as int) =~= a@);
        assert(b@.subrange(0, m as int) =~= b@);
    }
    while i < n && i < m
        invariant
            n == a@.len(),
            m == b@.len(),
            0 <= i <= n,
            i <= m,
            forall|k: int| 0 <= k < i ==> a@[k] == b@[k],
            chars_lt(a@, b@) == chars_lt(a@.subrange(i as int, n as int), b@.subrange(i as int, m as int)),
        decreases n - i,
    {
        let x = a.get_char(i);
        let y = b.get_char(i);
        if x != y {
            return (x as u32) < (y as u32);
        }
        proof {
            let sa = a@.subrange(i as int, n as int);
            let sb = b@.subrange(i as int, m as int);
            assert(sa.drop_first() =~= a@.subrange(i as int + 1, n as int));
            assert(sb.drop_first() =~= b@.subrange(i as int + 1, m as int));
        }
        i = i + 1;
    }
    i < m && i == n
}

/// Whether the order visits entry `t`.
pub open spec fn visits(order: Seq<usize>, t: int) -> bool {
    exists|k: int| 0 <= k < order.len() && order[k] == t
}

/// The order in which the entries of a name table are visited: a
/// permutation of the entries, by name.
#[verifier::spinoff_prover]
#[verifier::rlimit(40)]
fn sorted_order<T>(table: &Vec<(String, T)>) -> (r: Vec<usize>)
    ensures
        r@.len() == table@.len(),
        forall|k: int| 0 <= k < r@.len() ==> r@[k] < table@.len(),
        forall|j: int, k: int| 0 <= j < k < r@.len() ==> r@[j] != r@[k],
        forall|j: int, k: int|
            0 <= j < k < r@.len() ==> !chars_lt(
                #[trigger] table@[r@[k] as int].0@,
                #[trigger] table@[r@[j] as int].0@,
            ),
        forall|t: int| 0 <= t < table@.len() ==> #[trigger] visits(r@, t),
{
    let n = table.len();
    let mut out: Vec<usize> = Vec::new();
    let mut i: usize = 0;
    while i < n
        invariant
            n == table@.len(),
            0 <= i <= n,
            out@.len() == i,
            forall|k: int| 0 <= k < out@.len() ==> out@[k] < i,
            forall|t: int| 0 <= t < i ==> #[trigger] visits(out@, t),
            forall|j: int, k: int| 0 <= j < k < out@.len() ==> out@[j] != out@[k],
            forall|j: int, k: int|
                0 <= j < k < out@.len() ==> !chars_lt(
                    #[trigger] table@[out@[k] as int].0@,
                    #[trigger] table@[out@[j] as int].0@,
                ),
        decreases n - i,
    {
        // The first position whose name comes after the new one.
        let mut p: usize = 0;
        while p < out.len() && !str_lt(table[i].0.as_str(), table[out[p]].0.as_str())
            invariant
                n == table@.len(),
                i < n,
                0 <= p <= out@.len(),
                forall|k: int| 0 <= k < out@.len() ==> out@[k] < i,
                forall|j: int| 0 <= j < p ==> !chars_lt(table@[i as int].0@, #[trigger] table@[out@[j] as int].0@),
            decreases out@.len() - p,
        {
            p = p + 1;
        }
        let ghost old_out = out@;
        out.insert(p, i);
        proof {
            assert(out@ =~= old_out.insert(p as int, i));
            assert forall|t: int| 0 <= t < i + 1 implies #[trigger] visits(out@, t) by {
                if t == i {
                    assert(out@[p as int] == t);
                } else {
                    assert(visits(old_out, t));
                    let k = choose|k: int| 0 <= k < old_out.len() && old_out[k] == t;
                    if k < p {
                        assert(out@[k] == t);
                    } else {
                        assert(out@[k + 1] == t);
                    }
                }
            }
            assert forall|j: int, k: int| 0 <= j < k < out@.len() implies !chars_lt(
                #[trigger] table@[out@[k] as int].0@,
                #[trigger] table@[out@[j] as int].0@,
            ) by {
                let x = table@[i as int].0@;
                if j < p && k == p {
                } else if j == p && k > p {
                    // The later entry is not before the old occupant of `p`,
                    // which comes after the new name.
                    let later = table@[old_out[k - 1] as int].0@;
                    let at_p = table@[old_out[p as int] as int].0@;
                    assert(chars_lt(x, at_p));
                    if p < k - 1 {
                        assert(!chars_lt(later, at_p));
                    } else {
                        lemma_chars_lt_irreflexive(at_p);
                    }
                    if chars_lt(later, x) {
                        lemma_chars_lt_transitive(later, x, at_p);
                    }
                } else if j < p && k > p {
                    assert(out@[j] == old_out[j]);
                    assert(out@[k] == old_out[k - 1]);
                } else if j > p {
                    assert(out@[j] == old_out[j - 1]);
                    assert(out@[k] == old_out[k - 1]);
                } else {
                    assert(out@[j] == old_out[j]);
                    assert(out@[k] == old_out[k]);
                }
            }
        }
        i = i + 1;
    }
    out
}

/// The value of the first entry named `name`, if any.
pub open spec fn table_lookup<T>(table: Seq<(String, T)>, name: Seq<char>) -> Option<T>
    decreases table.len(),
{
    if table.len() == 0 {
        None
    } else if table[0].0@ == name {
        Some(table[0].1)
    } else {
        table_lookup(table.drop_first(), name)
    }
}

/// The entry named `name`, if any.
fn table_get<'a, T>(table: &Vec<(String, &'a T)>, name: &str) -> (r: Option<&'a T>)
    ensures
        r == table_lookup(table@, name@),
{
    let mut i: usize = 0;
    proof {
        assert(table@.subrange(0, table@.len() as int) =~= table@);
    }
    while i < table.len()
        invariant
            0 <= i <= table@.len(),
            table_lookup(table@, name@) == table_lookup(table@.subrange(i as int, table@.len() as int), name@),
        decreases table@.len() - i,
    {
        proof {
            assert(table@.subrange(i as int, table@.len() as int).drop_first()
                =~= table@.subrange(i as int + 1, table@.len() as int));
        }
        if crate::text::str_eq(table[i].0.as_str(), name) {
            return Some(table[i].1);
        }
        i = i + 1;
    }
    None
}

/// Whether an entry is named `name`.
pub open spec fn table_has<T>(table: Seq<(String, T)>, name: Seq<char>) -> bool {
    exists|k: int| 0 <= k < table.len() && table[k].0@ == name
}

/// A lookup finds an entry exactly when one has the name.
proof fn lemma_lookup_has<T>(table: Seq<(String, T)>, name: Seq<char>)
    ensures
        table_lookup(table, name) is Some <==> table_has(table, name),
    decreases table.len(),
{
    if table.len() > 0 {
        lemma_lookup_has(table.drop_first(), name);
        if table_has(table, name) && table[0].0@ != name {
            let k = choose|k: int| 0 <= k < table.len() && table[k].0@ == name;
            assert(table.drop_first()[k - 1] == table[k]);
        }
        if table_has(table.drop_first(), name) {
            let k = choose|k: int| 0 <= k < table.drop_first().len() && table.drop_first()[k].0@ == name;
            assert(table[k + 1] == table.drop_first()[k]);
        }
    }
}

/// What a lookup finds is the value of an entry with the name.
proof fn lemma_lookup_entry<T>(table: Seq<(String, T)>, name: Seq<char>)
    requires
        table_lookup(table, name) is Some,
    ensures
        exists|t: int| 0 <= t < table.len() && #[trigger] table[t].0@ == name
            && table[t].1 == table_lookup(table, name)->0,
    decreases table.len(),
{
    if table[0].0@ != name {
        lemma_lookup_entry(table.drop_first(), name);
        let t = choose|t: int| 0 <= t < table.drop_first().len() && #[trigger] table.drop_first()[t].0@ == name
            && table.drop_first()[t].1 == table_lookup(table.drop_first(), name)->0;
        assert(table[t + 1] == table.drop_first()[t]);
    }
}

/// A copy of a name table.
fn copy_table<'a, T>(table: &Vec<(String, &'a T)>) -> (r: Vec<(String, &'a T)>)
    ensures
        r@ == table@,
{
    let mut out: Vec<(String, &'a T)> = Vec::new();
    let mut i: usize = 0;
    while i < table.len()
        invariant
            0 <= i <= table@.len(),
            out@ == table@.take(i as int),
        decreases table@.len() - i,
    {
        out.push((table[i].0.clone(), table[i].1));
        i = i + 1;
        proof {
            assert(out@ =~= table@.take(i as int));
        }
    }
    proof {
        assert(out@ =~= table@);
    }
    out
}

/// Inserts or replaces the entry named `name`; whether one was there.
fn table_insert<'a, T>(table: &mut Vec<(String, &'a T)>, name: &String, value: &'a T) -> (existed: bool)
    ensures
        existed == table_has(old(table)@, name@),
        forall|n: Seq<char>| #[trigger] table_has(final(table)@, n) <==> (table_has(old(table)@, n) || n == name@),
        table_lookup(final(table)@, name@) == Some(value),
        forall|n: Seq<char>| n != name@ ==> #[trigger] table_lookup(final(table)@, n) == table_lookup(old(table)@, n),
{
    let mut i: usize = 0;
    while i < table.len()
        invariant
            0 <= i <= table@.len(),
            table@ == old(table)@,
            forall|k: int| 0 <= k < i ==> table@[k].0@ != name@,
        decreases table@.len() - i,
    {
        if crate::text::str_eq(table[i].0.as_str(), name.as_str()) {
            let key = name.clone();
            proof {
                lemma_lookup_update(old(table)@, i as int, (key, value), name@);
                assert forall|n: Seq<char>| n != name@ implies #[trigger] table_lookup(old(table)@.update(i as int, (key, value)), n)
                    == table_lookup(old(table)@, n) by {
                    lemma_lookup_update(old(table)@, i as int, (key, value), n);
                }
            }
            table.set(i, (key, value));
            proof {
                assert forall|n: Seq<char>| #[trigger] table_has(table@, n) <==> (table_has(old(table)@, n) || n == name@) by {
                    if table_has(old(table)@, n) {
                        let k = choose|k: int| 0 <= k < old(table)@.len() && old(table)@[k].0@ == n;
                        if k != i as int {
                            assert(table@[k] == old(table)@[k]);
                        } else {
                            assert(table@[k].0@ == n);
                        }
                    }
                    if n == name@ {
                        assert(table@[i as int].0@ == n);
                    }
                    if table_has(table@, n) {
                        let k = choose|k: int| 0 <= k < table@.len() && table@[k].0@ == n;
                        if k != i as int {
                            assert(table@[k] == old(table)@[k]);
                        }
                    }
                }
            }
            return true;
        }
        i = i + 1;
    }
    let key = name.clone();
    proof {
        lemma_lookup_has(old(table)@, name@);
        lemma_lookup_push(old(table)@, (key, value), name@);
        assert forall|n: Seq<char>| n != name@ implies #[trigger] table_lookup(old(table)@.push((key, value)), n)
            == table_lookup(old(table)@, n) by {
            lemma_lookup_push(old(table)@, (key, value), n);
            lemma_lookup_has(old(table)@, n);
        }
    }
    table.push((key, value));
    proof {
        assert forall|n: Seq<char>| #[trigger] table_has(table@, n) <==> (table_has(old(table)@, n) || n == name@) by {
            if table_has(old(table)@, n) {
                let k = choose|k: int| 0 <= k < old(table)@.len() && old(table)@[k].0@ == n;
                assert(table@[k] == old(table)@[k]);
            }
            if n == name@ {
                assert(table@[old(table)@.len() as int].0@ == n);
            }
            if table_has(table@, n) {
                let k = choose|k: int| 0 <= k < table@.len() && table@[k].0@ == n;
                if k < old(table)@.len() {
                    assert(table@[k] == old(table)@[k]);
                }
            }
        }
    }
    false
}

/// Whether the list holds the name.
fn contains_name(names: &Vec<String>, name: &str) -> (r: bool)
    ensures
        r == exists|k: int| 0 <= k < names@.len() && names@[k]@ == name@,
{
    let mut i: usize = 0;
    while i < names.len()
        invariant
            0 <= i <= names@.len(),
            forall|k: int| 0 <= k < i ==> names@[k]@ != name@,
        decreases names@.len() - i,
    {
        if crate::text::str_eq(names[i].as_str(), name) {
            return true;
        }
        i = i + 1;
    }
    false
}

/// Whether one of the names is `name`.
pub open spec fn has_name(names: Seq<String>, name: Seq<char>) -> bool {
    exists|k: int| 0 <= k < names.len() && names[k]@ == name
}

/// Every name of `before` is still in `after`.
pub open spec fn names_grow(before: Seq<String>, after: Seq<String>) -> bool {
    forall|n: Seq<char>| #[trigger] has_name(before, n) ==> has_name(after, n)
}

/// Adds a name to a set of names; whether it was new.
fn insert_name(names: &mut Vec<String>, name: &String) -> (added: bool)
    ensures
        added == !has_name(old(names)@, name@),
        forall|n: Seq<char>| #[trigger] has_name(final(names)@, n) <==> (has_name(old(names)@, n) || n == name@),
{
    if contains_name(names, name.as_str()) {
        proof {
            assert forall|n: Seq<char>| #[trigger] has_name(names@, n) <==> (has_name(old(names)@, n) || n == name@) by {
                if n == name@ {
                    let k = choose|k: int| 0 <= k < names@.len() && names@[k]@ == name@;
                    assert(names@[k]@ == n);
                }
            }
        }
        false
    } else {
        names.push(name.clone());
        proof {
            assert forall|n: Seq<char>| #[trigger] has_name(names@, n) <==> (has_name(old(names)@, n) || n == name@) by {
                if has_name(old(names)@, n) {
                    let k = choose|k: int| 0 <= k < old(names)@.len() && old(names)@[k]@ == n;
                    assert(names@[k] == old(names)@[k]);
                }
                if n == name@ {
                    assert(names@[old(names)@.len() as int]@ == n);
                }
                if has_name(names@, n) {
                    let k = choose|k: int| 0 <= k < names@.len() && names@[k]@ == n;
                    if k < old(names)@.len() {
                        assert(names@[k] == old(names)@[k]);
                    }
                }
            }
        }
        true
    }
}

/// One more named entry scanned: the names seen are those of the first
/// `i + 1` entries.
proof fn lemma_names_extend(entries: Seq<(Span, Seq<char>)>, i: int, before: Seq<String>, after: Seq<String>)
    requires
        0 <= i < entries.len(),
        forall|n: Seq<char>| has_name(before, n) <==> (exists|j: int| 0 <= j < i && #[trigger] entries[j].1 == n),
        forall|n: Seq<char>| #[trigger] has_name(after, n) <==> (has_name(before, n) || n == entries[i].1),
    ensures
        forall|n: Seq<char>| has_name(after, n) <==> (exists|j: int| 0 <= j < i + 1 && #[trigger] entries[j].1 == n),
{
    assert forall|n: Seq<char>| has_name(after, n) <==> (exists|j: int| 0 <= j < i + 1 && #[trigger] entries[j].1 == n) by {
        if exists|j: int| 0 <= j < i + 1 && #[trigger] entries[j].1 == n {
            let j = choose|j: int| 0 <= j < i + 1 && #[trigger] entries[j].1 == n;
            if j < i {
                assert(has_name(before, n));
            }
        }
        if has_name(before, n) {
            let j = choose|j: int| 0 <= j < i && #[trigger] entries[j].1 == n;
            assert(0 <= j < i + 1 && entries[j].1 == n);
        }
        if n == entries[i].1 {
            assert(0 <= i < i + 1 && entries[i].1 == n);
        }
    }
}


// ---------------------------------------------------------------------
// Constant values

/// Whether the constant expression mentions no named constant, parameter
/// or associated constant: its value depends on the expression alone.
pub open spec fn closed_const(e: ConstExpr) -> bool
    decreases e,
{
    match e.kind {
        ConstExprKind::IntLit(_) => true,
        ConstExprKind::Path(_) => false,
        ConstExprKind::Param(_) => false,
        ConstExprKind::AssocConst { .. } => false,
        ConstExprKind::Unary { expr, .. } => closed_const(*expr),
        ConstExprKind::Binary { lhs, rhs, .. } => closed_const(*lhs) && closed_const(*rhs),
        ConstExprKind::Cast { expr, .. } => closed_const(*expr),
    }
}

/// The value of a binary operation on constants, or `None` when it is an
/// error (a zero divisor or a shift amount outside `usize`).
pub open spec fn const_binary_value(op: ConstBinaryOp, l: int, r: int) -> Option<int> {
    match op {
        ConstBinaryOp::Add => Some(l + r),
        ConstBinaryOp::Sub => Some(l - r),
        ConstBinaryOp::Mul => Some(l * r),
        ConstBinaryOp::Div => if r == 0 { None } else { Some(trunc_div(l, r)) },
        ConstBinaryOp::Rem => if r == 0 { None } else { Some(trunc_rem(l, r)) },
        ConstBinaryOp::Shl => if 0 <= r <= usize::MAX {
            Some(l * pow2(r as nat))
        } else {
            None
        },
        ConstBinaryOp::Shr => if 0 <= r <= usize::MAX {
            Some(l / (pow2(r as nat) as int))
        } else {
            None
        },
        ConstBinaryOp::BitAnd => Some(bitwise(BitOp::And, l, r)),
        ConstBinaryOp::BitOr => Some(bitwise(BitOp::Or, l, r)),
        ConstBinaryOp::BitXor => Some(bitwise(BitOp::Xor, l, r)),
    }
}

/// The value of a closed constant expression, or `None` when evaluating it
/// is an error; a cast fails when the value does not fit the type.
pub open spec fn const_value(e: ConstExpr) -> Option<int>
    decreases e,
{
    match e.kind {
        ConstExprKind::IntLit(v) => Some(v@),
        ConstExprKind::Unary { op, expr } => match const_value(*expr) {
            Some(v) => match op {
                ConstUnaryOp::Plus => Some(v),
                ConstUnaryOp::Neg => Some(-v),
            },
            None => None,
        },
        ConstExprKind::Binary { op, lhs, rhs } => match (const_value(*lhs), const_value(*rhs)) {
            (Some(l), Some(r)) => const_binary_value(op, l, r),
            _ => None,
        },
        ConstExprKind::Cast { expr, ty } => match const_value(*expr) {
            Some(v) => if fits_spec(v, ty) { Some(v) } else { None },
            None => None,
        },
        _ => None,
    }
}

/// Whether every name in `e` is a declared constant, not a const
/// parameter in scope, whose own expression is closed.
pub open spec fn names_closed_consts(e: ConstExpr, consts: Seq<(String, &ConstItem)>, params: Seq<String>) -> bool
    decreases e,
{
    match e.kind {
        ConstExprKind::IntLit(_) => true,
        ConstExprKind::Path(p) => {
            let n = join_segments(p.kind.segment_views());
            !has_name(params, n) && (table_lookup(consts, n) matches Some(c) && closed_const(c.kind.expr))
        },
        ConstExprKind::Param(_) => false,
        ConstExprKind::AssocConst { .. } => false,
        ConstExprKind::Unary { expr, .. } => names_closed_consts(*expr, consts, params),
        ConstExprKind::Binary { lhs, rhs, .. } => names_closed_consts(*lhs, consts, params) && names_closed_consts(*rhs, consts, params),
        ConstExprKind::Cast { expr, .. } => names_closed_consts(*expr, consts, params),
    }
}

/// Whether the generic parameter is a constant parameter named `n`.
pub open spec fn is_const_param_named(g: GenericParam, n: Seq<char>) -> bool {
    g.kind matches GenericParamKind::Const { name, .. } && name@ == n
}

/// The number of generic parameters of the struct, or else the enum,
/// named `name`.
pub open spec fn generic_count(structs: Seq<(String, &StructItem)>, enums: Seq<(String, &EnumItem)>, name: Seq<char>) -> nat {
    match table_lookup(structs, name) {
        Some(st) => st.kind.generics@.len(),
        None => match table_lookup(enums, name) {
            Some(en) => en.kind.generics@.len(),
            None => 0,
        },
    }
}

/// Whether one of the generic parameters is a constant parameter named `n`.
pub open spec fn const_param_named(generics: Seq<GenericParam>, n: Seq<char>) -> bool {
    exists|i: int| 0 <= i < generics.len() && is_const_param_named(#[trigger] generics[i], n)
}

/// `names_closed_consts` for an expression of an item with the generic
/// parameters `generics`: no name in it is one of their constant
/// parameters.
pub open spec fn names_closed_in(e: ConstExpr, consts: Seq<(String, &ConstItem)>, generics: Seq<GenericParam>) -> bool
    decreases e,
{
    match e.kind {
        ConstExprKind::IntLit(_) => true,
        ConstExprKind::Path(p) => {
            let n = join_segments(p.kind.segment_views());
            !const_param_named(generics, n) && (table_lookup(consts, n) matches Some(c) && closed_const(c.kind.expr))
        },
        ConstExprKind::Param(_) => false,
        ConstExprKind::AssocConst { .. } => false,
        ConstExprKind::Unary { expr, .. } => names_closed_in(*expr, consts, generics),
        ConstExprKind::Binary { lhs, rhs, .. } => names_closed_in(*lhs, consts, generics) && names_closed_in(*rhs, consts, generics),
        ConstExprKind::Cast { expr, .. } => names_closed_in(*expr, consts, generics),
    }
}

/// A scope whose constant parameters all come from `generics` sees an
/// expression closed in them as closed.
proof fn lemma_names_closed_in(e: ConstExpr, consts: Seq<(String, &ConstItem)>, generics: Seq<GenericParam>, params: Seq<String>)
    requires
        names_closed_in(e, consts, generics),
        forall|n: Seq<char>| #[trigger] has_name(params, n) ==> const_param_named(generics, n),
    ensures
        names_closed_consts(e, consts, params),
    decreases e,
{
    match e.kind {
        ConstExprKind::Unary { expr, .. } => lemma_names_closed_in(*expr, consts, generics, params),
        ConstExprKind::Binary { lhs, rhs, .. } => {
            lemma_names_closed_in(*lhs, consts, generics, params);
            lemma_names_closed_in(*rhs, consts, generics, params);
        },
        ConstExprKind::Cast { expr, .. } => lemma_names_closed_in(*expr, consts, generics, params),
        _ => {},
    }
}

/// Two constant tables that agree on every name give an expression the
/// same reading.
proof fn lemma_same_const_tables(e: ConstExpr, a: Seq<(String, &ConstItem)>, b: Seq<(String, &ConstItem)>, generics: Seq<GenericParam>)
    requires
        forall|n: Seq<char>| #[trigger] table_lookup(a, n) == table_lookup(b, n),
    ensures
        names_closed_in(e, a, generics) == names_closed_in(e, b, generics),
        const_value_with(e, a) == const_value_with(e, b),
    decreases e,
{
    match e.kind {
        ConstExprKind::Path(p) => {
            assert(table_lookup(a, join_segments(p.kind.segment_views())) == table_lookup(b, join_segments(p.kind.segment_views())));
        },
        ConstExprKind::Unary { expr, .. } => lemma_same_const_tables(*expr, a, b, generics),
        ConstExprKind::Binary { lhs, rhs, .. } => {
            lemma_same_const_tables(*lhs, a, b, generics);
            lemma_same_const_tables(*rhs, a, b, generics);
        },
        ConstExprKind::Cast { expr, .. } => lemma_same_const_tables(*expr, a, b, generics),
        _ => {},
    }
}

/// Two tables of the same items' constants agree on every name.
proof fn lemma_const_tables_agree(a: Seq<(String, &ConstItem)>, b: Seq<(String, &ConstItem)>, items: Seq<Item>, i: int)
    requires
        const_table_of(a, items, i),
        const_table_of(b, items, i),
    ensures
        forall|n: Seq<char>| #[trigger] table_lookup(a, n) == table_lookup(b, n),
{
    assert forall|n: Seq<char>| #[trigger] table_lookup(a, n) == table_lookup(b, n) by {
        match last_const_index(items, i, n) {
            Some(j) => {
                assert(table_lookup(a, n) matches Some(c) && items[j].kind == ItemKind::Const(*c));
                assert(table_lookup(b, n) matches Some(c) && items[j].kind == ItemKind::Const(*c));
            },
            None => {},
        }
    }
}

/// The value of a constant expression whose names are declared constants:
/// a name stands for its constant's value when that value fits the
/// constant's type, and for no value otherwise.
pub open spec fn const_value_with(e: ConstExpr, consts: Seq<(String, &ConstItem)>) -> Option<int>
    decreases e,
{
    match e.kind {
        ConstExprKind::IntLit(v) => Some(v@),
        ConstExprKind::Path(p) => match table_lookup(consts, join_segments(p.kind.segment_views())) {
            Some(c) => fitting_value(const_value(c.kind.expr), c.kind.ty),
            None => None,
        },
        ConstExprKind::Unary { op, expr } => match const_value_with(*expr, consts) {
            Some(v) => match op {
                ConstUnaryOp::Plus => Some(v),
                ConstUnaryOp::Neg => Some(-v),
            },
            None => None,
        },
        ConstExprKind::Binary { op, lhs, rhs } => match (const_value_with(*lhs, consts), const_value_with(*rhs, consts)) {
            (Some(l), Some(r)) => const_binary_value(op, l, r),
            _ => None,
        },
        ConstExprKind::Cast { expr, ty } => fitting_value(const_value_with(*expr, consts), ty),
        _ => None,
    }
}

/// A computed value kept when it fits `ty`; `None` otherwise.
pub open spec fn fitting_value(v: Option<int>, ty: IntTy) -> Option<int> {
    match v {
        Some(x) => if fits_spec(x, ty) { Some(x) } else { None },
        None => None,
    }
}

/// The value of a constant expression in a scope whose constant parameters
/// are `params`: a name of a parameter, or a parameter written as such, has
/// no value yet (it stays symbolic), a named constant has its value where it
/// fits its type, and operations and casts fold as in `const_value_with`.
pub open spec fn const_value_in(e: ConstExpr, consts: Seq<(String, &ConstItem)>, params: Seq<String>) -> Option<int>
    decreases e,
{
    match e.kind {
        ConstExprKind::IntLit(v) => Some(v@),
        ConstExprKind::Path(p) => {
            let n = join_segments(p.kind.segment_views());
            if has_name(params, n) {
                None
            } else {
                match table_lookup(consts, n) {
                    Some(c) => fitting_value(const_value(c.kind.expr), c.kind.ty),
                    None => None,
                }
            }
        },
        ConstExprKind::Unary { op, expr } => match const_value_in(*expr, consts, params) {
            Some(v) => match op {
                ConstUnaryOp::Plus => Some(v),
                ConstUnaryOp::Neg => Some(-v),
            },
            None => None,
        },
        ConstExprKind::Binary { op, lhs, rhs } => match (const_value_in(*lhs, consts, params), const_value_in(*rhs, consts, params)) {
            (Some(l), Some(r)) => const_binary_value(op, l, r),
            _ => None,
        },
        ConstExprKind::Cast { expr, ty } => fitting_value(const_value_in(*expr, consts, params), ty),
        _ => None,
    }
}

/// The errors evaluating the constant `name` adds when its expression
/// reports nothing: one error when its value does not fit its type.
pub open spec fn quiet_evaluation_errors(name: Seq<char>, item: ConstItem, consts: Seq<(String, &ConstItem)>) -> Seq<(Span, Seq<char>)> {
    match const_value_in(item.kind.expr, consts, Seq::empty()) {
        Some(v) => if fits_spec(v, item.kind.ty) {
            Seq::empty()
        } else {
            seq![(item.kind.expr.span, "const `"@ + name + "` value `"@ + int_decimal(v) + "` does not fit in "@ + int_ty_name(item.kind.ty))]
        },
        None => Seq::empty(),
    }
}

/// Whether evaluating a constant expression in a scope whose constant
/// parameters are `params` reports nothing: each name in it is a parameter
/// or a constant whose closed expression has a value that fits its type,
/// each parameter written as such is in scope, and each operation or cast
/// reached with values succeeds. Evaluation stops at the first operand
/// without a value, so what follows it is not looked at.
pub open spec fn quiet_const(e: ConstExpr, consts: Seq<(String, &ConstItem)>, params: Seq<String>) -> bool
    decreases e,
{
    match e.kind {
        ConstExprKind::IntLit(_) => true,
        ConstExprKind::Path(p) => {
            let n = join_segments(p.kind.segment_views());
            has_name(params, n) || (table_lookup(consts, n) matches Some(c) && closed_const(c.kind.expr)
                && fitting_value(const_value(c.kind.expr), c.kind.ty) is Some)
        },
        ConstExprKind::Param(n) => has_name(params, n@),
        ConstExprKind::AssocConst { .. } => false,
        ConstExprKind::Unary { expr, .. } => quiet_const(*expr, consts, params),
        ConstExprKind::Binary { op, lhs, rhs } => quiet_const(*lhs, consts, params)
            && (const_value_in(*lhs, consts, params) matches Some(l) ==> quiet_const(*rhs, consts, params)
                && (const_value_in(*rhs, consts, params) matches Some(r) ==> const_binary_error(op, l, r) is None)),
        ConstExprKind::Cast { expr, ty } => quiet_const(*expr, consts, params)
            && (const_value_in(*expr, consts, params) matches Some(v) ==> fits_spec(v, ty)),
    }
}

/// The error a binary operation on constants reports, if any: a zero
/// divisor or a shift amount outside `usize`.
pub open spec fn const_binary_error(op: ConstBinaryOp, l: int, r: int) -> Option<Seq<char>> {
    match op {
        ConstBinaryOp::Div => if r == 0 { Some("division by zero in const expression"@) } else { None },
        ConstBinaryOp::Rem => if r == 0 { Some("remainder by zero in const expression"@) } else { None },
        ConstBinaryOp::Shl => if !(0 <= r <= usize::MAX) { Some("shift amount does not fit usize"@) } else { None },
        ConstBinaryOp::Shr => if !(0 <= r <= usize::MAX) { Some("shift amount does not fit usize"@) } else { None },
        _ => None,
    }
}

/// The errors evaluating a closed constant expression reports, in order:
/// evaluation stops at the first operand without a value, and each failed
/// operation or cast reports one error at its expression.
pub open spec fn const_errors(e: ConstExpr) -> Seq<(Span, Seq<char>)>
    decreases e,
{
    match e.kind {
        ConstExprKind::Unary { expr, .. } => const_errors(*expr),
        ConstExprKind::Binary { op, lhs, rhs } => if const_value(*lhs) is None {
            const_errors(*lhs)
        } else if const_value(*rhs) is None {
            const_errors(*rhs)
        } else {
            match const_binary_error(op, const_value(*lhs)->0, const_value(*rhs)->0) {
                Some(m) => seq![(e.span, m)],
                None => Seq::empty(),
            }
        },
        ConstExprKind::Cast { expr, ty } => if const_value(*expr) is None {
            const_errors(*expr)
        } else if fits_spec(const_value(*expr)->0, ty) {
            Seq::empty()
        } else {
            seq![(e.span, "value `"@ + int_decimal(const_value(*expr)->0) + "` does not fit in "@ + int_ty_name(ty))]
        },
        _ => Seq::empty(),
    }
}

/// Whether a statement is an expression that always leaves its block:
/// a `return` or a `todo`.
pub open spec fn stmt_leaves(s: crate::ast::Stmt) -> bool {
    match s.kind {
        StmtKind::Expr(e) => e.kind is Return || e.kind is Todo,
        StmtKind::Semi(e) => e.kind is Return || e.kind is Todo,
        _ => false,
    }
}

/// Whether a literal expression: `()`, a boolean or an integer.
pub open spec fn is_literal(e: Expr) -> bool {
    e.kind is UnitLit || e.kind is BoolLit || e.kind is IntLit
}

/// What the typing `r` of a block shows, as far as its statements and tail
/// decide it: a block without a tail has the unit type at its span, one
/// with a statement that leaves it diverges, a literal tail gives its type
/// (an integer literal the integer type of `expected_ret`, or `i32`), and a
/// block that is only a literal does not diverge.
spec fn block_typed(block: Block, expected_ret: Ty, r: ExprTy) -> bool {
    &&& block.kind.tail is None ==> r.ty.kind is Unit && r.ty.span == block.span
    &&& (exists|k: int| 0 <= k < block.kind.stmts@.len() && #[trigger] stmt_leaves(block.kind.stmts@[k])) ==> r.diverges
    &&& block.kind.tail matches Some(t) ==> ((t.kind is IntLit ==> r.ty.kind == TyKind::Int(literal_int_ty(expected_ret)))
        && (t.kind is BoolLit ==> r.ty.kind is Bool) && (t.kind is UnitLit ==> r.ty.kind is Unit)
        && ((block.kind.stmts@.len() == 0 && is_literal(*t)) ==> !r.diverges))
}

/// Whether `t` is an integer, `bool` or unit type, compared with another
/// type without looking inside either.
pub open spec fn simple_ty(t: Ty) -> bool {
    t.kind is Int || t.kind is Bool || t.kind is Unit
}

/// Whether `e` is a literal or a variable.
pub open spec fn is_leaf(e: Expr) -> bool {
    is_literal(e) || e.kind is Var
}

/// What the typing `t` of a literal or variable is: the literal's type
/// (an integer literal's taken from the return type), or the type a bound
/// variable has; neither diverges.
spec fn leaf_typed(e: Expr, locals: Seq<(String, Ty)>, expected_ret: Ty, t: ExprTy) -> bool {
    match e.kind {
        ExprKind::UnitLit => t.ty.kind is Unit && !t.diverges,
        ExprKind::BoolLit(_) => t.ty.kind is Bool && !t.diverges,
        ExprKind::IntLit(_) => t.ty.kind == TyKind::Int(literal_int_ty(expected_ret)) && !t.diverges,
        ExprKind::Var(name) => table_lookup(locals, name@) matches Some(ty) ==> ty_same(t.ty, ty) && !t.diverges,
        _ => true,
    }
}

/// Whether checking the literal or variable `e` reports nothing: a unit or
/// `bool` literal, an integer literal that fits its type, a bound variable.
pub open spec fn quiet_leaf(e: Expr, locals: Seq<(String, Ty)>, expected_ret: Ty) -> bool {
    match e.kind {
        ExprKind::UnitLit => true,
        ExprKind::BoolLit(_) => true,
        ExprKind::IntLit(v) => fits_spec(v@, literal_int_ty(expected_ret)),
        ExprKind::Var(name) => table_lookup(locals, name@) is Some,
        _ => false,
    }
}

/// The typing and errors of a binary operation from its operands' typings
/// `lt` and `rt` and the errors `mid` reported up to them. It diverges when
/// an operand does. Arithmetic has the left operand's type; where that is
/// an integer, `bool` or unit type, it reports operands that are not
/// integers of one type (a diverging operand matches any). A comparison is
/// `bool`; where the left type is an integer, `bool` or unit type, it
/// reports operands of different types. A logical operation is `bool` and
/// reports operands that are not both `bool`.
spec fn binary_typed(op: BinaryOp, span: Span, lt: ExprTy, rt: ExprTy, mid: Seq<(Span, String)>,
    errors: Seq<(Span, String)>, r: ExprTy) -> bool {
    let matching = lt.ty.kind == rt.ty.kind || rt.ty.kind is Never;
    let comparison = op is Eq || op is Ne || op is Lt || op is Le || op is Gt || op is Ge;
    &&& r.diverges == (lt.diverges || rt.diverges)
    &&& is_arithmetic_op_spec(op) ==> r.ty == lt.ty
    &&& (is_arithmetic_op_spec(op) && simple_ty(lt.ty)) ==> if lt.ty.kind is Int && matching {
        errors == mid
    } else {
        errors_view(errors) == errors_view(mid).push((span, "binary arithmetic expects matching integer operands"@))
    }
    &&& !is_arithmetic_op_spec(op) ==> r.ty.kind is Bool
    &&& (comparison && simple_ty(lt.ty)) ==> if matching {
        errors == mid
    } else {
        errors_view(errors) == errors_view(mid).push((span, "comparison expects matching operand types"@))
    }
    &&& (!is_arithmetic_op_spec(op) && !comparison) ==> if lt.ty.kind is Bool && rt.ty.kind is Bool {
        errors == mid
    } else {
        errors_view(errors) == errors_view(mid).push((span, "logical operator expects bool operands"@))
    }
}

/// Whether `e` is a `bool` literal or a variable bound to a `bool`.
pub open spec fn quiet_bool_cond(e: Expr, locals: Seq<(String, Ty)>) -> bool {
    e.kind is BoolLit || (e.kind matches ExprKind::Var(n) && (table_lookup(locals, n@) matches Some(t) && t.kind is Bool))
}

/// Whether checking the literal `e` reports nothing: a unit or `bool`
/// literal, or an integer literal that fits its type.
pub open spec fn quiet_literal(e: Expr, expected_ret: Ty) -> bool {
    e.kind is UnitLit || e.kind is BoolLit
        || (e.kind matches ExprKind::IntLit(v) && fits_spec(v@, literal_int_ty(expected_ret)))
}

/// Whether the literal `x` is of the kind of the return type: an integer
/// literal for an integer type, a `bool` literal for `bool`, `()` for unit.
pub open spec fn literal_of_kind(x: Expr, expected_ret: Ty) -> bool {
    (x.kind is IntLit && expected_ret.kind is Int) || (x.kind is BoolLit && expected_ret.kind is Bool)
        || (x.kind is UnitLit && expected_ret.kind is Unit)
}

/// Whether `e` returns a literal of the return type's kind that is checked
/// without an error, or returns nothing from a function returning unit.
pub open spec fn quiet_return(e: Expr, expected_ret: Ty) -> bool {
    e.kind matches ExprKind::Return(v) && match v {
        Some(x) => quiet_literal(*x, expected_ret) && literal_of_kind(*x, expected_ret),
        None => expected_ret.kind is Unit,
    }
}

/// Whether a statement is such a `return`.
pub open spec fn quiet_stmt(st: crate::ast::Stmt, expected_ret: Ty) -> bool {
    match st.kind {
        StmtKind::Expr(e) => quiet_return(e, expected_ret),
        StmtKind::Semi(e) => quiet_return(e, expected_ret),
        _ => false,
    }
}

/// Whether every statement of `b` is such a `return` and its tail, where it
/// has one, is a literal checked without an error.
pub open spec fn quiet_block(b: Block, expected_ret: Ty) -> bool {
    (forall|k: int| 0 <= k < b.kind.stmts@.len() ==> #[trigger] quiet_stmt(b.kind.stmts@[k], expected_ret))
        && (b.kind.tail matches Some(t) ==> quiet_literal(*t, expected_ret))
}

/// The errors an `if` adds after its condition and branches, reported up
/// to `mid`: where neither branch diverges and the `then` type is an
/// integer, `bool` or unit type, one error when the `else` type differs;
/// none where a branch diverges; otherwise only errors added after `mid`.
spec fn if_errors(t: ExprTy, e: ExprTy, mid: Seq<(Span, String)>, errors: Seq<(Span, String)>, span: Span) -> bool {
    if t.diverges || e.diverges {
        errors == mid
    } else if simple_ty(t.ty) {
        if t.ty.kind == e.ty.kind || e.ty.kind is Never {
            errors == mid
        } else {
            errors_view(errors) == errors_view(mid).push((span, "if branches must have the same type"@))
        }
    } else {
        errors_kept(mid, errors)
    }
}

/// The typing of an `if` from those of its branches: the type of the branch
/// that does not diverge (the `then` branch's when neither does), diverging
/// only when both branches do.
spec fn if_typed(then_ty: ExprTy, else_ty: ExprTy, r: ExprTy) -> bool {
    &&& r.diverges == (then_ty.diverges && else_ty.diverges)
    &&& r.ty == if then_ty.diverges { else_ty.ty } else { then_ty.ty }
}

/// A closed expression that reports nothing has its closed value in any
/// scope.
proof fn lemma_quiet_closed(e: ConstExpr, consts: Seq<(String, &ConstItem)>, params: Seq<String>)
    requires
        closed_const(e),
        quiet_const(e, consts, params),
    ensures
        const_value_in(e, consts, params) == const_value(e),
        const_errors(e) == Seq::<(Span, Seq<char>)>::empty(),
    decreases e,
{
    match e.kind {
        ConstExprKind::Unary { expr, .. } => lemma_quiet_closed(*expr, consts, params),
        ConstExprKind::Binary { lhs, rhs, .. } => {
            lemma_quiet_closed(*lhs, consts, params);
            if const_value(*lhs) is Some {
                lemma_quiet_closed(*rhs, consts, params);
            }
        },
        ConstExprKind::Cast { expr, .. } => lemma_quiet_closed(*expr, consts, params),
        _ => {},
    }
}

/// A closed expression with a value reports no error.
proof fn lemma_const_errors_of_value(e: ConstExpr)
    requires
        closed_const(e),
        const_value(e) is Some,
    ensures
        const_errors(e) == Seq::<(Span, Seq<char>)>::empty(),
    decreases e,
{
    match e.kind {
        ConstExprKind::Unary { expr, .. } => lemma_const_errors_of_value(*expr),
        ConstExprKind::Binary { lhs, rhs, .. } => {
            lemma_const_errors_of_value(*lhs);
            lemma_const_errors_of_value(*rhs);
        },
        ConstExprKind::Cast { expr, .. } => lemma_const_errors_of_value(*expr),
        _ => {},
    }
}

/// The errors evaluating the declared constant `item`, named `name`, for
/// the first time reports, when its expression is closed: those of its
/// expression, then the fit error when its value does not fit its type.
pub open spec fn first_evaluation_errors(name: Seq<char>, item: ConstItem) -> Seq<(Span, Seq<char>)> {
    const_errors(item.kind.expr) + if overflowing_const(item) { seq![const_fit_error(name, item)] } else { Seq::empty() }
}

/// An optional integer as an optional mathematical integer.
pub open spec fn opt_int(v: Option<IntValue>) -> Option<int> {
    match v {
        Some(x) => Some(x@),
        None => None,
    }
}

/// The recursion budget of the checker's mutually recursive evaluation.
const EVAL_FUEL: u64 = 0xFFFF_FFFF_FFFF_FFFF;

/// The names in scope from generic parameters, and the interface
/// obligations that bounds and `where` clauses establish.
struct GenericScope {
    type_params: Vec<String>,
    const_params: Vec<String>,
    obligations: Vec<(Ty, InterfaceRef)>,
}

impl GenericScope {
    fn empty() -> (r: GenericScope)
        ensures
            r.type_params@.len() == 0,
            r.const_params@.len() == 0,
    {
        GenericScope { type_params: Vec::new(), const_params: Vec::new(), obligations: Vec::new() }
    }

    fn copy(&self) -> (r: GenericScope)
        ensures
            r.type_params@ == self.type_params@,
            r.const_params@ == self.const_params@,
            r.obligations@.len() == self.obligations@.len(),
            forall|k: int| 0 <= k < r.obligations@.len() ==> {
                &&& (#[trigger] r.obligations@[k]).0.span == self.obligations@[k].0.span
                &&& forall|s: Seq<char>| ty_text_with(r.obligations@[k].0, s) == ty_text_with(self.obligations@[k].0, s)
                &&& r.obligations@[k].1.span == self.obligations@[k].1.span
            },
    {
        let mut obligations: Vec<(Ty, InterfaceRef)> = Vec::new();
        let mut i: usize = 0;
        while i < self.obligations.len()
            invariant
                0 <= i <= self.obligations@.len(),
                obligations@.len() == i,
                forall|k: int| 0 <= k < i ==> {
                    &&& (#[trigger] obligations@[k]).0.span == self.obligations@[k].0.span
                    &&& forall|s: Seq<char>| ty_text_with(obligations@[k].0, s) == ty_text_with(self.obligations@[k].0, s)
                    &&& obligations@[k].1.span == self.obligations@[k].1.span
                },
            decreases self.obligations@.len() - i,
        {
            let (t, iref) = &self.obligations[i];
            obligations.push((crate::ast::clone_ty(t), crate::ast::clone_interface_ref(iref)));
            i = i + 1;
        }
        let type_params = self.type_params.clone();
        let const_params = self.const_params.clone();
        proof {
            assert(type_params@ =~= self.type_params@);
            assert(const_params@ =~= self.const_params@);
        }
        GenericScope { type_params, const_params, obligations }
    }
}

/// What implementing an interface requires, with inherited members.
struct InterfaceReqs<'a> {
    methods: Vec<(String, &'a MethodSig)>,
    consts: Vec<(String, &'a AssocConstSig)>,
}

/// The type of an expression and whether control never leaves it.
struct ExprTy {
    ty: Ty,
    diverges: bool,
}

struct Checker<'a> {
    structs: Vec<(String, &'a StructItem)>,
    enums: Vec<(String, &'a EnumItem)>,
    interfaces: Vec<(String, &'a InterfaceItem)>,
    impls: Vec<&'a ImplItem>,
    fns: Vec<(String, &'a FnItem)>,
    const_items: Vec<(String, &'a ConstItem)>,
    const_values: Vec<(String, IntValue)>,
    evaluating_consts: Vec<String>,
    /// The errors found, as spans and messages, in the order found.
    errors: Vec<(Span, String)>,
}

/// No constant whose expression is closed and has a value is marked as
/// being evaluated: such a constant is only marked while its own
/// evaluation runs.
spec fn evaluation_clear(c: Checker) -> bool {
    forall|n: Seq<char>| #[trigger] has_name(c.evaluating_consts@, n)
        ==> !(table_lookup(c.const_items@, n) matches Some(item) && valued_const(*item))
}

/// Every remembered constant value belongs to a declared constant and fits
/// its type, and for a closed expression it is that expression's value.
spec fn cache_sound(c: Checker) -> bool {
    forall|n: Seq<char>| #[trigger] table_lookup(c.const_values@, n) matches Some(v)
        ==> (table_lookup(c.const_items@, n) matches Some(item) && fits_spec(v@, item.kind.ty)
            && (closed_const(item.kind.expr) ==> const_value(item.kind.expr) == Some(v@)))
}

/// What every checking step keeps: the name tables, and the two
/// properties of the constant state above.
spec fn state_kept(before: Checker, after: Checker) -> bool {
    &&& after.const_items == before.const_items
    &&& after.structs == before.structs
    &&& after.enums == before.enums
    &&& after.interfaces == before.interfaces
    &&& after.fns == before.fns
    &&& after.impls == before.impls
    &&& evaluation_clear(before) ==> evaluation_clear(after)
    &&& cache_sound(before) ==> cache_sound(after)
}

/// What checking a call of the top-level function `f`, named `name`, with
/// `nargs` arguments at `span` gives: the function's declared return type,
/// not diverging, and first of all, when the argument count is wrong, the
/// arity error.
spec fn fn_call_outcome(before: Seq<(Span, String)>, after: Seq<(Span, String)>, span: Span, name: Seq<char>, f: FnItem, nargs: int, r: ExprTy) -> bool {
    &&& !r.diverges
    &&& r.ty.span == f.kind.ret.span
    &&& f.kind.params@.len() != nargs ==> after.len() > before.len()
        && errors_view(after)[before.len() as int] == (span, "function `"@ + name
            + "` expects "@ + crate::text::nat_decimal(f.kind.params@.len()) + " arguments"@)
}

/// What checking the constructor `enum_path::variant` with `args` at
/// `span` gives, the name tables being `enums`, `fns` and `structs`: an
/// unknown enum (with no qualified function or struct of that name for
/// the argument form) or variant is reported and gives `!`; a known
/// variant gives the enum type applied to one argument per generic
/// parameter; a payload of another form than the arguments is reported.
spec fn enum_ctor_outcome(
    enums: Seq<(String, &EnumItem)>,
    fns: Seq<(String, &FnItem)>,
    structs: Seq<(String, &StructItem)>,
    before: Seq<(Span, String)>,
    after: Seq<(Span, String)>,
    span: Span,
    enum_path: Path,
    variant: Seq<char>,
    args: EnumCtorArgs,
    r: ExprTy,
) -> bool {
    let name = join_segments(enum_path.kind.segment_views());
    let qualified = name + "::"@ + variant;
    &&& (table_lookup(enums, name) is None
        && !(args.kind is Tuple && table_lookup(fns, qualified) is Some)
        && !(args.kind is Struct && table_lookup(structs, qualified) is Some))
        ==> errors_view(after) == errors_view(before).push((enum_path.span, "unknown enum `"@ + name + "`"@))
            && r.ty.kind is Never && r.diverges
    &&& table_lookup(enums, name) matches Some(e) ==> {
        let found = exists|k: int| 0 <= k < e.kind.variants@.len()
            && (#[trigger] e.kind.variants@[k]).kind.name@ == variant;
        &&& !found ==> errors_view(after) == errors_view(before)
                .push((span, "unknown variant `"@ + variant + "` for enum `"@ + name + "`"@))
            && r.ty.kind is Never && r.diverges
        &&& found ==> (!r.diverges && r.ty.span == span
            && (r.ty.kind matches TyKind::Path { path, args: ty_args }
            && path.kind.segments@ == enum_path.kind.segments@
            && ty_args@.len() == e.kind.generics@.len()))
        &&& first_variant(e.kind.variants@, variant) matches Some(v)
            ==> (!same_payload_form(v.kind.payload.kind, args.kind)
                ==> errors_view(after) == errors_view(before)
                    .push((span, "variant `"@ + variant + "` payload form does not match constructor"@)))
    }
}

/// `a`, `b` and `c` joined.
fn cat3(a: &str, b: &str, c: &str) -> (r: String)
    ensures
        r@ == a@ + b@ + c@,
{
    let mut s = owned(a);
    push_str(&mut s, b);
    push_str(&mut s, c);
    s
}

/// `a`, `b`, `c`, `d` and `e` joined.
fn cat5(a: &str, b: &str, c: &str, d: &str, e: &str) -> (r: String)
    ensures
        r@ == a@ + b@ + c@ + d@ + e@,
{
    let mut s = owned(a);
    push_str(&mut s, b);
    push_str(&mut s, c);
    push_str(&mut s, d);
    push_str(&mut s, e);
    s
}

/// Whether two paths are equal, spans included.
pub open spec fn path_same(a: Path, b: Path) -> bool {
    a.span == b.span && a.kind.segment_views() == b.kind.segment_views()
}

/// Whether two types are equal node for node, spans included.
pub open spec fn ty_same(a: Ty, b: Ty) -> bool
    decreases a, 0nat,
{
    a.span == b.span && match (a.kind, b.kind) {
        (TyKind::Unit, TyKind::Unit) | (TyKind::Bool, TyKind::Bool) | (TyKind::Never, TyKind::Never)
        | (TyKind::SelfTy, TyKind::SelfTy) => true,
        (TyKind::Int(x), TyKind::Int(y)) => x == y,
        (TyKind::Path { path: ap, args: aa }, TyKind::Path { path: bp, args: ba }) =>
            path_same(ap, bp) && args_same(aa@, ba@),
        (TyKind::Array { elem: ae, len: al }, TyKind::Array { elem: be, len: bl }) =>
            ty_same(*ae, *be) && const_same(al, bl),
        (TyKind::Ref { mutability: am, ty: at }, TyKind::Ref { mutability: bm, ty: bt }) =>
            am == bm && ty_same(*at, *bt),
        (TyKind::Fn { params: ap, ret: ar }, TyKind::Fn { params: bp, ret: br }) =>
            tys_same(ap@, bp@) && ty_same(*ar, *br),
        _ => false,
    }
}

/// Whether two lists of types are equal node for node.
pub open spec fn tys_same(a: Seq<Ty>, b: Seq<Ty>) -> bool
    decreases a, 0nat,
{
    if a.len() != b.len() {
        false
    } else if a.len() == 0 {
        true
    } else {
        tys_same(a.subrange(0, a.len() - 1), b.subrange(0, b.len() - 1)) && ty_same(a[a.len() - 1], b[b.len() - 1])
    }
}

/// Whether two lists of generic arguments are equal node for node.
pub open spec fn args_same(a: Seq<GenericArg>, b: Seq<GenericArg>) -> bool
    decreases a, 0nat,
{
    if a.len() != b.len() {
        false
    } else if a.len() == 0 {
        true
    } else {
        args_same(a.subrange(0, a.len() - 1), b.subrange(0, b.len() - 1)) && arg_same(a[a.len() - 1], b[b.len() - 1])
    }
}

/// Whether two generic arguments are equal node for node.
pub open spec fn arg_same(a: GenericArg, b: GenericArg) -> bool
    decreases a, 0nat,
{
    a.span == b.span && match (a.kind, b.kind) {
        (GenericArgKind::Ty(x), GenericArgKind::Ty(y)) => ty_same(x, y),
        (GenericArgKind::Const(x), GenericArgKind::Const(y)) => const_same(x, y),
        _ => false,
    }
}

/// Whether two constant expressions are equal node for node.
pub open spec fn const_same(a: ConstExpr, b: ConstExpr) -> bool
    decreases a, 1nat,
{
    a.span == b.span && const_kind_same(a, b)
}

/// Whether the kinds of two constant expressions are equal node for node.
pub open spec fn const_kind_same(a: ConstExpr, b: ConstExpr) -> bool
    decreases a, 0nat,
{
    match (a.kind, b.kind) {
        (ConstExprKind::IntLit(x), ConstExprKind::IntLit(y)) => x@ == y@,
        (ConstExprKind::Path(x), ConstExprKind::Path(y)) => path_same(x, y),
        (ConstExprKind::Param(x), ConstExprKind::Param(y)) => x@ == y@,
        (ConstExprKind::AssocConst { ty: at, interface: ai, name: an }, ConstExprKind::AssocConst { ty: bt, interface: bi, name: bn }) =>
            ty_same(*at, *bt) && path_same(ai, bi) && an@ == bn@,
        (ConstExprKind::Unary { op: ao, expr: ae }, ConstExprKind::Unary { op: bo, expr: be }) =>
            ao == bo && const_same(*ae, *be),
        (ConstExprKind::Binary { op: ao, lhs: al, rhs: ar }, ConstExprKind::Binary { op: bo, lhs: bl, rhs: br }) =>
            ao == bo && const_same(*al, *bl) && const_same(*ar, *br),
        (ConstExprKind::Cast { expr: ae, ty: at }, ConstExprKind::Cast { expr: be, ty: bt }) =>
            const_same(*ae, *be) && at == bt,
        _ => false,
    }
}

/// Lists are the same exactly when they are the same item by item.
pub(crate) proof fn lemma_tys_same(a: Seq<Ty>, b: Seq<Ty>)
    ensures
        tys_same(a, b) <==> (a.len() == b.len() && forall|k: int| 0 <= k < a.len() ==> ty_same(#[trigger] a[k], b[k])),
    decreases a.len(),
{
    if a.len() == b.len() && a.len() > 0 {
        let a1 = a.subrange(0, a.len() - 1);
        let b1 = b.subrange(0, b.len() - 1);
        lemma_tys_same(a1, b1);
        assert forall|k: int| 0 <= k < a1.len() implies a1[k] == a[k] && b1[k] == b[k] by {}
        if forall|k: int| 0 <= k < a.len() ==> ty_same(#[trigger] a[k], b[k]) {
            assert forall|k: int| 0 <= k < a1.len() implies ty_same(#[trigger] a1[k], b1[k]) by {
                assert(ty_same(a[k], b[k]));
            }
            assert(ty_same(a[a.len() - 1], b[b.len() - 1]));
        }
        if tys_same(a, b) {
            assert forall|k: int| 0 <= k < a.len() implies ty_same(#[trigger] a[k], b[k]) by {
                if k < a.len() - 1 {
                    assert(ty_same(a1[k], b1[k]));
                }
            }
        }
    }
}

/// Lists are the same exactly when they are the same item by item.
pub(crate) proof fn lemma_args_same(a: Seq<GenericArg>, b: Seq<GenericArg>)
    ensures
        args_same(a, b) <==> (a.len() == b.len() && forall|k: int| 0 <= k < a.len() ==> arg_same(#[trigger] a[k], b[k])),
    decreases a.len(),
{
    if a.len() == b.len() && a.len() > 0 {
        let a1 = a.subrange(0, a.len() - 1);
        let b1 = b.subrange(0, b.len() - 1);
        lemma_args_same(a1, b1);
        assert forall|k: int| 0 <= k < a1.len() implies a1[k] == a[k] && b1[k] == b[k] by {}
        if forall|k: int| 0 <= k < a.len() ==> arg_same(#[trigger] a[k], b[k]) {
            assert forall|k: int| 0 <= k < a1.len() implies arg_same(#[trigger] a1[k], b1[k]) by {
                assert(arg_same(a[k], b[k]));
            }
            assert(arg_same(a[a.len() - 1], b[b.len() - 1]));
        }
        if args_same(a, b) {
            assert forall|k: int| 0 <= k < a.len() implies arg_same(#[trigger] a[k], b[k]) by {
                if k < a.len() - 1 {
                    assert(arg_same(a1[k], b1[k]));
                }
            }
        }
    }
}

/// Whether two paths are equal, spans included.
fn path_eq(a: &Path, b: &Path) -> (r: bool)
    ensures
        r == path_same(*a, *b),
{
    if a.span != b.span || a.kind.segments.len() != b.kind.segments.len() {
        proof {
            assert(a.kind.segment_views().len() == a.kind.segments@.len());
            assert(b.kind.segment_views().len() == b.kind.segments@.len());
        }
        return false;
    }
    let mut i: usize = 0;
    while i < a.kind.segments.len()
        invariant
            0 <= i <= a.kind.segments@.len(),
            a.span == b.span,
            a.kind.segments@.len() == b.kind.segments@.len(),
            forall|k: int| 0 <= k < i ==> (#[trigger] a.kind.segments@[k])@ == b.kind.segments@[k]@,
        decreases a.kind.segments@.len() - i,
    {
        if !crate::text::str_eq(a.kind.segments[i].as_str(), b.kind.segments[i].as_str()) {
            proof {
                assert(a.kind.segment_views()[i as int] != b.kind.segment_views()[i as int]);
            }
            return false;
        }
        i = i + 1;
    }
    proof {
        assert(a.kind.segment_views() =~= b.kind.segment_views());
    }
    true
}

/// Whether two types are equal node for node, spans included.
fn ty_node_eq(a: &Ty, b: &Ty) -> (r: bool)
    ensures
        r == ty_same(*a, *b),
    decreases a, 0nat,
{
    if a.span != b.span {
        return false;
    }
    match (&a.kind, &b.kind) {
        (TyKind::Unit, TyKind::Unit) | (TyKind::Bool, TyKind::Bool) | (TyKind::Never, TyKind::Never)
        | (TyKind::SelfTy, TyKind::SelfTy) => true,
        (TyKind::Int(x), TyKind::Int(y)) => *x == *y,
        (TyKind::Path { path: ap, args: aa }, TyKind::Path { path: bp, args: ba }) => {
            path_eq(ap, bp) && generic_args_node_eq(aa, ba)
        },
        (TyKind::Array { elem: ae, len: al }, TyKind::Array { elem: be, len: bl }) => {
            ty_node_eq(ae, be) && const_node_eq(al, bl)
        },
        (TyKind::Ref { mutability: am, ty: at }, TyKind::Ref { mutability: bm, ty: bt }) => {
            *am == *bm && ty_node_eq(at, bt)
        },
        (TyKind::Fn { params: ap, ret: ar }, TyKind::Fn { params: bp, ret: br }) => {
            tys_node_eq(ap, bp) && ty_node_eq(ar, br)
        },
        _ => false,
    }
}

fn tys_node_eq(a: &Vec<Ty>, b: &Vec<Ty>) -> (r: bool)
    ensures
        r == tys_same(a@, b@),
    decreases a, 0nat,
{
    proof {
        lemma_tys_same(a@, b@);
    }
    if a.len() != b.len() {
        return false;
    }
    let mut i: usize = 0;
    while i < a.len()
        invariant
            0 <= i <= a@.len(),
            a@.len() == b@.len(),
            forall|k: int| 0 <= k < i ==> ty_same(#[trigger] a@[k], b@[k]),
        decreases a@.len() - i,
    {
        if !ty_node_eq(&a[i], &b[i]) {
            proof {
                assert(!ty_same(a@[i as int], b@[i as int]));
                lemma_tys_same(a@, b@);
            }
            return false;
        }
        i = i + 1;
    }
    true
}

fn generic_args_node_eq(a: &Vec<GenericArg>, b: &Vec<GenericArg>) -> (r: bool)
    ensures
        r == args_same(a@, b@),
    decreases a, 0nat,
{
    proof {
        lemma_args_same(a@, b@);
    }
    if a.len() != b.len() {
        return false;
    }
    let mut i: usize = 0;
    while i < a.len()
        invariant
            0 <= i <= a@.len(),
            a@.len() == b@.len(),
            forall|k: int| 0 <= k < i ==> arg_same(#[trigger] a@[k], b@[k]),
        decreases a@.len() - i,
    {
        if !generic_arg_node_eq(&a[i], &b[i]) {
            proof {
                assert(!arg_same(a@[i as int], b@[i as int]));
                lemma_args_same(a@, b@);
            }
            return false;
        }
        i = i + 1;
    }
    true
}

fn generic_arg_node_eq(a: &GenericArg, b: &GenericArg) -> (r: bool)
    ensures
        r == arg_same(*a, *b),
    decreases a, 0nat,
{
    if a.span != b.span {
        return false;
    }
    match (&a.kind, &b.kind) {
        (GenericArgKind::Ty(x), GenericArgKind::Ty(y)) => ty_node_eq(x, y),
        (GenericArgKind::Const(x), GenericArgKind::Const(y)) => const_node_eq(x, y),
        _ => false,
    }
}

fn const_node_eq(a: &ConstExpr, b: &ConstExpr) -> (r: bool)
    ensures
        r == const_same(*a, *b),
    decreases a, 1nat,
{
    a.span == b.span && const_kind_eq(a, b)
}

/// Whether the kinds of two constant expressions are equal node for node
/// (nested spans included).
fn const_kind_eq(a: &ConstExpr, b: &ConstExpr) -> (r: bool)
    ensures
        r == const_kind_same(*a, *b),
    decreases a, 0nat,
{
    match (&a.kind, &b.kind) {
        (ConstExprKind::IntLit(x), ConstExprKind::IntLit(y)) => int_eq(x, y),
        (ConstExprKind::Path(x), ConstExprKind::Path(y)) => path_eq(x, y),
        (ConstExprKind::Param(x), ConstExprKind::Param(y)) => crate::text::str_eq(x.as_str(), y.as_str()),
        (ConstExprKind::AssocConst { ty: at, interface: ai, name: an }, ConstExprKind::AssocConst { ty: bt, interface: bi, name: bn }) => {
            ty_node_eq(at, bt) && path_eq(ai, bi) && crate::text::str_eq(an.as_str(), bn.as_str())
        },
        (ConstExprKind::Unary { op: ao, expr: ae }, ConstExprKind::Unary { op: bo, expr: be }) => {
            *ao == *bo && const_node_eq(ae, be)
        },
        (ConstExprKind::Binary { op: ao, lhs: al, rhs: ar }, ConstExprKind::Binary { op: bo, lhs: bl, rhs: br }) => {
            *ao == *bo && const_node_eq(al, bl) && const_node_eq(ar, br)
        },
        (ConstExprKind::Cast { expr: ae, ty: at }, ConstExprKind::Cast { expr: be, ty: bt }) => {
            const_node_eq(ae, be) && *at == *bt
        },
        _ => false,
    }
}

/// A type naming a generic parameter, as written at the parameter.
fn param_ty(span: Span, name: &String) -> (r: Ty)
    ensures
        r.span == span,
{
    Node::new(span, TyKind::Path { path: synthetic_path(name.clone()), args: Vec::new() })
}

impl<'a> Checker<'a> {
    fn new() -> (r: Checker<'a>)
        ensures
            r.structs@.len() == 0,
            r.enums@.len() == 0,
            r.interfaces@.len() == 0,
            r.fns@.len() == 0,
            r.const_items@.len() == 0,
            r.errors@.len() == 0,
            r.const_values@.len() == 0,
            r.evaluating_consts@.len() == 0,
            r.impls@.len() == 0,
    {
        Checker {
            structs: Vec::new(),
            enums: Vec::new(),
            interfaces: Vec::new(),
            impls: Vec::new(),
            fns: Vec::new(),
            const_items: Vec::new(),
            const_values: Vec::new(),
            evaluating_consts: Vec::new(),
            errors: Vec::new(),
        }
    }

    fn error(&mut self, span: Span, message: String)
        ensures
            errors_kept(old(self).errors@, final(self).errors@),
            state_kept(*old(self), *final(self)),
            final(self).errors@ == old(self).errors@.push((span, message)),
            final(self).const_items == old(self).const_items,
            final(self).structs == old(self).structs,
            final(self).enums == old(self).enums,
            final(self).interfaces == old(self).interfaces,
            final(self).impls == old(self).impls,
            final(self).fns == old(self).fns,
            final(self).const_values == old(self).const_values,
            final(self).evaluating_consts == old(self).evaluating_consts,
    {
        self.errors.push((span, message));
    }

    /// A checker with the same tables, no constant under evaluation and no
    /// diagnostics, for comparisons whose errors are not reported.
    fn checker_for_compare(&self) -> (r: Checker<'a>)
        ensures
            r.structs@ == self.structs@,
            r.enums@ == self.enums@,
            r.interfaces@ == self.interfaces@,
            r.impls@ == self.impls@,
            r.fns@ == self.fns@,
            r.const_items@ == self.const_items@,
            r.const_values@.len() == self.const_values@.len(),
            forall|k: int| 0 <= k < r.const_values@.len() ==> (#[trigger] r.const_values@[k]).0 == self.const_values@[k].0
                && r.const_values@[k].1@ == self.const_values@[k].1@,
            r.evaluating_consts@.len() == 0,
            r.errors@.len() == 0,
    {
        let mut const_values: Vec<(String, IntValue)> = Vec::new();
        let mut i: usize = 0;
        while i < self.const_values.len()
            invariant
                0 <= i <= self.const_values@.len(),
                const_values@.len() == i,
                forall|k: int| 0 <= k < i ==> (#[trigger] const_values@[k]).0 == self.const_values@[k].0
                    && const_values@[k].1@ == self.const_values@[k].1@,
            decreases self.const_values@.len() - i,
        {
            let (n, v) = &self.const_values[i];
            const_values.push((n.clone(), v.copy()));
            i = i + 1;
        }
        let mut impls: Vec<&'a ImplItem> = Vec::new();
        let mut j: usize = 0;
        while j < self.impls.len()
            invariant
                0 <= j <= self.impls@.len(),
                impls@ == self.impls@.take(j as int),
            decreases self.impls@.len() - j,
        {
            impls.push(self.impls[j]);
            j = j + 1;
            proof {
                assert(impls@ =~= self.impls@.take(j as int));
            }
        }
        proof {
            assert(impls@ =~= self.impls@);
        }
        Checker {
            structs: copy_table(&self.structs),
            enums: copy_table(&self.enums),
            interfaces: copy_table(&self.interfaces),
            impls,
            fns: copy_table(&self.fns),
            const_items: copy_table(&self.const_items),
            const_values,
            evaluating_consts: Vec::new(),
            errors: Vec::new(),
        }
    }

    /// The remembered value of the constant `name`.
    fn cached_const(&self, name: &String) -> (r: Option<IntValue>)
        ensures
            r is Some <==> table_lookup(self.const_values@, name@) is Some,
            r matches Some(v) ==> v@ == table_lookup(self.const_values@, name@)->0@,
    {
        let mut i: usize = 0;
        proof {
            assert(self.const_values@.subrange(0, self.const_values@.len() as int) =~= self.const_values@);
        }
        while i < self.const_values.len()
            invariant
                0 <= i <= self.const_values@.len(),
                table_lookup(self.const_values@, name@)
                    == table_lookup(self.const_values@.subrange(i as int, self.const_values@.len() as int), name@),
            decreases self.const_values@.len() - i,
        {
            proof {
                assert(self.const_values@.subrange(i as int, self.const_values@.len() as int).drop_first()
                    =~= self.const_values@.subrange(i as int + 1, self.const_values@.len() as int));
            }
            if crate::text::str_eq(self.const_values[i].0.as_str(), name.as_str()) {
                return Some(self.const_values[i].1.copy());
            }
            i = i + 1;
        }
        None
    }

    fn cache_const(&mut self, name: &String, value: IntValue)
        requires
            table_lookup(old(self).const_items@, name@) matches Some(item) && fits_spec(value@, item.kind.ty)
                && (closed_const(item.kind.expr) ==> const_value(item.kind.expr) == Some(value@)),
        ensures
            errors_kept(old(self).errors@, final(self).errors@),
            state_kept(*old(self), *final(self)),
            final(self).evaluating_consts == old(self).evaluating_consts,
            final(self).errors == old(self).errors,
            table_lookup(final(self).const_values@, name@) matches Some(v) && v@ == value@,
            forall|n: Seq<char>| n != name@ ==> #[trigger] table_lookup(final(self).const_values@, n)
                == table_lookup(old(self).const_values@, n),
    {
        let ghost value_view = value@;
        let mut i: usize = 0;
        while i < self.const_values.len()
            invariant
                errors_kept(old(self).errors@, self.errors@),
                state_kept(*old(self), *self),
                0 <= i <= self.const_values@.len(),
                *self == *old(self),
                value@ == value_view,
                forall|k: int| 0 <= k < i ==> (#[trigger] self.const_values@[k]).0@ != name@,
                table_lookup(old(self).const_items@, name@) matches Some(item) && fits_spec(value@, item.kind.ty)
                    && (closed_const(item.kind.expr) ==> const_value(item.kind.expr) == Some(value@)),
            decreases self.const_values@.len() - i,
        {
            if crate::text::str_eq(self.const_values[i].0.as_str(), name.as_str()) {
                let entry = (name.clone(), value);
                proof {
                    lemma_lookup_update(old(self).const_values@, i as int, entry, name@);
                    assert forall|n: Seq<char>| n != name@ implies #[trigger] table_lookup(old(self).const_values@.update(i as int, entry), n)
                        == table_lookup(old(self).const_values@, n) by {
                        lemma_lookup_update(old(self).const_values@, i as int, entry, n);
                    }
                }
                self.const_values.set(i, entry);
                proof {
                    assert forall|n: Seq<char>| #[trigger] table_lookup(self.const_values@, n) is Some && cache_sound(*old(self))
                        implies (table_lookup(self.const_items@, n) matches Some(item)
                            && fits_spec(table_lookup(self.const_values@, n)->0@, item.kind.ty)
                            && (closed_const(item.kind.expr) ==> const_value(item.kind.expr) == Some(table_lookup(self.const_values@, n)->0@))) by {
                        assert(self.const_items@ == old(self).const_items@);
                        if n != name@ {
                            assert(table_lookup(self.const_values@, n) == table_lookup(old(self).const_values@, n));
                        } else {
                            assert(table_lookup(self.const_values@, n) == Some(entry.1));
                        }
                    }
                }
                return;
            }
            i = i + 1;
        }
        let entry = (name.clone(), value);
        proof {
            lemma_lookup_has(old(self).const_values@, name@);
            lemma_lookup_push(old(self).const_values@, entry, name@);
            assert forall|n: Seq<char>| n != name@ implies #[trigger] table_lookup(old(self).const_values@.push(entry), n)
                == table_lookup(old(self).const_values@, n) by {
                lemma_lookup_push(old(self).const_values@, entry, n);
            }
        }
        self.const_values.push(entry);
        proof {
            assert forall|n: Seq<char>| #[trigger] table_lookup(self.const_values@, n) is Some && cache_sound(*old(self))
                implies (table_lookup(self.const_items@, n) matches Some(item)
                    && fits_spec(table_lookup(self.const_values@, n)->0@, item.kind.ty)
                    && (closed_const(item.kind.expr) ==> const_value(item.kind.expr) == Some(table_lookup(self.const_values@, n)->0@))) by {
                if n != name@ {
                    assert(table_lookup(self.const_values@, n) == table_lookup(old(self).const_values@, n));
                }
            }
        }
    }

    fn stop_evaluating(&mut self, name: &String)
        ensures
            errors_kept(old(self).errors@, final(self).errors@),
            state_kept(*old(self), *final(self)),
            final(self).const_values == old(self).const_values,
            final(self).errors == old(self).errors,
            forall|n: Seq<char>| #[trigger] has_name(final(self).evaluating_consts@, n)
                <==> (has_name(old(self).evaluating_consts@, n) && n != name@),
    {
        let mut kept: Vec<String> = Vec::new();
        let mut i: usize = 0;
        while i < self.evaluating_consts.len()
            invariant
                errors_kept(old(self).errors@, self.errors@),
                state_kept(*old(self), *self),
                0 <= i <= self.evaluating_consts@.len(),
                *self == *old(self),
                forall|n: Seq<char>| #[trigger] has_name(kept@, n) <==> (n != name@
                    && exists|k: int| 0 <= k < i && (#[trigger] self.evaluating_consts@[k])@ == n),
            decreases self.evaluating_consts@.len() - i,
        {
            let ghost prev = kept@;
            if !crate::text::str_eq(self.evaluating_consts[i].as_str(), name.as_str()) {
                kept.push(self.evaluating_consts[i].clone());
            }
            proof {
                let e = self.evaluating_consts@;
                assert forall|n: Seq<char>| #[trigger] has_name(kept@, n) <==> (n != name@
                    && exists|k: int| 0 <= k < i + 1 && (#[trigger] e[k])@ == n) by {
                    if has_name(kept@, n) {
                        let m = choose|m: int| 0 <= m < kept@.len() && kept@[m]@ == n;
                        if m < prev.len() {
                            assert(has_name(prev, n));
                        } else {
                            assert(kept@[m] == e[i as int]);
                        }
                    }
                    if n != name@ && exists|k: int| 0 <= k < i + 1 && (#[trigger] e[k])@ == n {
                        let k = choose|k: int| 0 <= k < i + 1 && (#[trigger] e[k])@ == n;
                        if k < i {
                            assert(has_name(prev, n));
                            let m = choose|m: int| 0 <= m < prev.len() && prev[m]@ == n;
                            assert(kept@[m] == prev[m]);
                        } else {
                            assert(kept@[prev.len() as int] == e[i as int]);
                        }
                    }
                }
            }
            i = i + 1;
        }
        self.evaluating_consts = kept;
        proof {
            assert forall|n: Seq<char>| #[trigger] has_name(self.evaluating_consts@, n) && evaluation_clear(*old(self))
                implies !(table_lookup(self.const_items@, n) matches Some(item) && valued_const(*item)) by {
                assert(has_name(old(self).evaluating_consts@, n));
            }
        }
    }

    /// The value of the top-level constant `name`, evaluated once and then
    /// remembered; a constant that depends on itself is reported.
    fn eval_top_const(&mut self, name: &String) -> (r: Option<IntValue>)
        ensures
            errors_kept(old(self).errors@, final(self).errors@),
            table_lookup(old(self).const_values@, name@) is Some ==> final(self).errors@ == old(self).errors@,
            state_kept(*old(self), *final(self)),
            table_lookup(old(self).const_items@, name@) matches Some(item) ==> ((overflowing_const(*item)
                && evaluation_clear(*old(self)) && cache_sound(*old(self)))
                ==> reported(final(self).errors@, const_fit_error(name@, *item))),
            forall|n: Seq<char>| #[trigger] has_name(final(self).evaluating_consts@, n) <==> has_name(old(self).evaluating_consts@, n),
            (table_lookup(old(self).const_values@, name@) is None && !has_name(old(self).evaluating_consts@, name@)
                && table_lookup(old(self).const_items@, name@) is Some
                && closed_const(table_lookup(old(self).const_items@, name@)->0.kind.expr))
                ==> errors_view(final(self).errors@) == errors_view(old(self).errors@)
                    + first_evaluation_errors(name@, *table_lookup(old(self).const_items@, name@)->0),
            table_lookup(old(self).const_items@, name@) matches Some(item) ==> ((table_lookup(old(self).const_values@, name@) is None
                && !has_name(old(self).evaluating_consts@, name@) && evaluation_clear(*old(self)) && cache_sound(*old(self))
                && quiet_const(item.kind.expr, old(self).const_items@, Seq::empty()))
                ==> opt_int(r) == fitting_value(const_value_in(item.kind.expr, old(self).const_items@, Seq::empty()), item.kind.ty)
                    && errors_view(final(self).errors@) == errors_view(old(self).errors@)
                        + quiet_evaluation_errors(name@, *item, old(self).const_items@)),
    {
        match table_get(&self.const_items, name.as_str()) {
            Some(item) => self.eval_named_const(name, &item.kind.expr, EVAL_FUEL),
            None => self.cached_const(name),
        }
    }

    /// `eval_top_const` for a reference from `site`. A remembered value is
    /// returned as it is; otherwise a constant reached again while it is
    /// being evaluated is reported as a cycle, and a value computed here fits
    /// the constant's declared type.
    fn eval_named_const(&mut self, name: &String, site: &ConstExpr, fuel: u64) -> (r: Option<IntValue>)
        ensures
            errors_kept(old(self).errors@, final(self).errors@),
            state_kept(*old(self), *final(self)),
            table_lookup(old(self).const_values@, name@) matches Some(v) ==> r matches Some(x) && x@ == v@
                && final(self).errors@ == old(self).errors@,
            table_lookup(old(self).const_values@, name@) is None ==> match table_lookup(old(self).const_items@, name@) {
                None => r is None && final(self).errors@ == old(self).errors@,
                Some(item) => {
                    &&& has_name(old(self).evaluating_consts@, name@) ==> r is None && errors_view(final(self).errors@)
                        == errors_view(old(self).errors@).push((item.span, "const cycle involving `"@ + name@ + "`"@))
                    &&& r matches Some(v) ==> fits_spec(v@, item.kind.ty)
                },
            },
            table_lookup(old(self).const_items@, name@) matches Some(item) ==> ((overflowing_const(*item)
                && evaluation_clear(*old(self)) && cache_sound(*old(self)) && fuel > 0)
                ==> (r is None && reported(final(self).errors@, const_fit_error(name@, *item)))),
            table_lookup(old(self).const_items@, name@) matches Some(item) ==> ((closed_const(item.kind.expr)
                && evaluation_clear(*old(self)) && cache_sound(*old(self)) && fuel > 0)
                ==> opt_int(r) == fitting_value(const_value(item.kind.expr), item.kind.ty)),
            forall|n: Seq<char>| #[trigger] has_name(final(self).evaluating_consts@, n) <==> has_name(old(self).evaluating_consts@, n),
            (table_lookup(old(self).const_values@, name@) is None && !has_name(old(self).evaluating_consts@, name@) && fuel > 0)
                ==> (table_lookup(old(self).const_items@, name@) is Some
                    && closed_const(table_lookup(old(self).const_items@, name@)->0.kind.expr)
                    ==> errors_view(final(self).errors@) == errors_view(old(self).errors@)
                        + first_evaluation_errors(name@, *table_lookup(old(self).const_items@, name@)->0)),
            table_lookup(old(self).const_items@, name@) matches Some(item) ==> ((table_lookup(old(self).const_values@, name@) is None
                && !has_name(old(self).evaluating_consts@, name@) && evaluation_clear(*old(self)) && cache_sound(*old(self))
                && fuel > 2 && quiet_const(item.kind.expr, old(self).const_items@, Seq::empty()))
                ==> opt_int(r) == fitting_value(const_value_in(item.kind.expr, old(self).const_items@, Seq::empty()), item.kind.ty)
                    && errors_view(final(self).errors@) == errors_view(old(self).errors@)
                        + quiet_evaluation_errors(name@, *item, old(self).const_items@)),
        decreases fuel, site,
    {
        if let Some(value) = self.cached_const(name) {
            return Some(value);
        }
        let item = table_get(&self.const_items, name.as_str())?;
        if contains_name(&self.evaluating_consts, name.as_str()) {
            proof {
                assert(has_name(self.evaluating_consts@, name@));
            }
            self.error(item.span, cat3("const cycle involving `", name.as_str(), "`"));
            proof {
                reveal_strlit("`");
                assert(errors_view(self.errors@) =~= errors_view(old(self).errors@)
                    .push((item.span, "const cycle involving `"@ + name@ + "`"@)));
            }
            return None;
        }
        if fuel == 0 {
            return None;
        }
        let ghost before_push = *self;
        self.evaluating_consts.push(name.clone());
        proof {
            if !valued_const(*item) {
                assert forall|n: Seq<char>| #[trigger] has_name(self.evaluating_consts@, n) && evaluation_clear(before_push)
                    implies !(table_lookup(self.const_items@, n) matches Some(it) && valued_const(*it)) by {
                    if n != name@ {
                        let m = choose|m: int| 0 <= m < self.evaluating_consts@.len() && self.evaluating_consts@[m]@ == n;
                        assert(self.evaluating_consts@[m] == before_push.evaluating_consts@[m]);
                        assert(has_name(before_push.evaluating_consts@, n));
                    }
                }
            }
        }
        let ghost after_push = *self;
        let scope = GenericScope::empty();
        proof {
            assert(scope.const_params@ =~= Seq::<String>::empty());
        }
        let result = self.eval_const_expr(&item.kind.expr, &scope, fuel - 1);
        let ghost after_eval = *self;
        proof {
            if closed_const(item.kind.expr) && quiet_const(item.kind.expr, old(self).const_items@, Seq::empty()) {
                lemma_quiet_closed(item.kind.expr, old(self).const_items@, Seq::empty());
                assert(errors_view(after_push.errors@) + Seq::<(Span, Seq<char>)>::empty() =~= errors_view(after_push.errors@));
            }
        }
        self.stop_evaluating(name);
        proof {
            assert forall|n: Seq<char>| #[trigger] has_name(self.evaluating_consts@, n) <==> has_name(old(self).evaluating_consts@, n) by {
                if has_name(after_push.evaluating_consts@, n) && n != name@ {
                    let m = choose|m: int| 0 <= m < after_push.evaluating_consts@.len() && after_push.evaluating_consts@[m]@ == n;
                    assert(m < before_push.evaluating_consts@.len());
                    assert(after_push.evaluating_consts@[m] == before_push.evaluating_consts@[m]);
                }
                if has_name(old(self).evaluating_consts@, n) {
                    let m = choose|m: int| 0 <= m < before_push.evaluating_consts@.len() && before_push.evaluating_consts@[m]@ == n;
                    assert(after_push.evaluating_consts@[m] == before_push.evaluating_consts@[m]);
                    assert(has_name(after_push.evaluating_consts@, n));
                }
            }
        }
        proof {
            assert forall|n: Seq<char>| #[trigger] has_name(self.evaluating_consts@, n) && evaluation_clear(before_push)
                && (!valued_const(*item) ==> evaluation_clear(after_eval))
                implies !(table_lookup(self.const_items@, n) matches Some(it) && valued_const(*it)) by {
                if valued_const(*item) {
                    assert(has_name(after_push.evaluating_consts@, n));
                    let m = choose|m: int| 0 <= m < after_push.evaluating_consts@.len() && after_push.evaluating_consts@[m]@ == n;
                    assert(m < before_push.evaluating_consts@.len());
                    assert(after_push.evaluating_consts@[m] == before_push.evaluating_consts@[m]);
                    assert(has_name(before_push.evaluating_consts@, n));
                } else {
                    assert(has_name(after_eval.evaluating_consts@, n));
                }
            }
            assert(cache_sound(before_push) ==> cache_sound(*self));
        }
        let value = match result {
            Some(v) => v,
            None => {
                proof {
                    if closed_const(item.kind.expr) {
                        assert(errors_view(self.errors@) =~= errors_view(old(self).errors@) + first_evaluation_errors(name@, *item));
                    }
                    assert(errors_view(self.errors@) =~= errors_view(after_eval.errors@));
                    assert(errors_view(old(self).errors@) + Seq::<(Span, Seq<char>)>::empty() =~= errors_view(old(self).errors@));
                }
                return None;
            },
        };
        if !fits_int_ty(&value, item.kind.ty) {
            let mut message = cat3("const `", name.as_str(), "` value `");
            let text = int_to_string(&value);
            push_string(&mut message, &text);
            push_str(&mut message, "` does not fit in ");
            let ty_name = item.kind.ty.to_string();
            push_string(&mut message, &ty_name);
            self.error(item.kind.expr.span, message);
            proof {
                let k = self.errors@.len() - 1;
                assert((self.errors@[k].0, self.errors@[k].1@) == (item.kind.expr.span, "const `"@ + name@ + "` value `"@
                    + int_decimal(value@) + "` does not fit in "@ + int_ty_name(item.kind.ty)));
                if closed_const(item.kind.expr) {
                    lemma_const_errors_of_value(item.kind.expr);
                    assert(errors_view(self.errors@) =~= errors_view(old(self).errors@) + first_evaluation_errors(name@, *item));
                }
                if quiet_const(item.kind.expr, old(self).const_items@, Seq::empty()) && evaluation_clear(*old(self))
                    && cache_sound(*old(self)) && fuel > 2 {
                    assert(errors_view(self.errors@) =~= errors_view(old(self).errors@)
                        + quiet_evaluation_errors(name@, *item, old(self).const_items@));
                }
            }
            return None;
        }
        self.cache_const(name, value.copy());
        proof {
            if closed_const(item.kind.expr) {
                lemma_const_errors_of_value(item.kind.expr);
                assert(errors_view(self.errors@) =~= errors_view(old(self).errors@) + first_evaluation_errors(name@, *item));
            }
            if quiet_const(item.kind.expr, old(self).const_items@, Seq::empty()) && evaluation_clear(*old(self))
                && cache_sound(*old(self)) && fuel > 2 {
                assert(errors_view(self.errors@) =~= errors_view(old(self).errors@)
                    + quiet_evaluation_errors(name@, *item, old(self).const_items@));
            }
        }
        Some(value)
    }

    /// Evaluates a constant expression. Constants that depend on generic
    /// parameters have no value here (`None`, without a diagnostic).
    fn eval_const_expr(&mut self, expr: &ConstExpr, scope: &GenericScope, fuel: u64) -> (r: Option<IntValue>)
        ensures
            errors_kept(old(self).errors@, final(self).errors@),
            state_kept(*old(self), *final(self)),
            closed_const(*expr) ==> final(self).evaluating_consts == old(self).evaluating_consts
                && final(self).const_values == old(self).const_values,
            closed_const(*expr) ==> opt_int(r) == const_value(*expr),
            closed_const(*expr) ==> errors_view(final(self).errors@) == errors_view(old(self).errors@) + const_errors(*expr),
            (names_closed_consts(*expr, old(self).const_items@, scope.const_params@) && evaluation_clear(*old(self))
                && cache_sound(*old(self)) && fuel > 1) ==> opt_int(r) == const_value_with(*expr, old(self).const_items@),
            expr.kind matches ConstExprKind::Param(n) ==> r is None
                && (has_name(scope.const_params@, n@) ==> final(self).errors@ == old(self).errors@)
                && (!has_name(scope.const_params@, n@) ==> errors_view(final(self).errors@)
                    == errors_view(old(self).errors@).push((expr.span, "unknown const parameter `"@ + n@ + "`"@))),
            expr.kind matches ConstExprKind::Path(p) && has_name(scope.const_params@, join_segments(p.kind.segment_views()))
                ==> r is None && final(self).errors@ == old(self).errors@,
            (quiet_const(*expr, old(self).const_items@, scope.const_params@) && evaluation_clear(*old(self))
                && cache_sound(*old(self)) && fuel > 1) ==> opt_int(r) == const_value_in(*expr, old(self).const_items@, scope.const_params@)
                    && errors_view(final(self).errors@) == errors_view(old(self).errors@),
            forall|n: Seq<char>| #[trigger] has_name(final(self).evaluating_consts@, n) <==> has_name(old(self).evaluating_consts@, n),
        decreases fuel, expr,
    {
        match &expr.kind {
            ConstExprKind::IntLit(value) => Some(value.copy()),
            ConstExprKind::Path(path) => {
                let name = path_name(path);
                if contains_name(&scope.const_params, name.as_str()) {
                    return None;
                }
                if table_get(&self.const_items, name.as_str()).is_some() {
                    if fuel == 0 {
                        return None;
                    }
                    let ghost before = *self;
                    let value = self.eval_named_const(&name, expr, fuel - 1);
                    proof {
                        let consts = before.const_items@;
                        if quiet_const(*expr, consts, scope.const_params@) && evaluation_clear(before) && cache_sound(before) && fuel > 1 {
                            let item = table_lookup(consts, name@)->0;
                            if table_lookup(before.const_values@, name@) is None {
                                assert(valued_const(*item));
                                assert(!has_name(before.evaluating_consts@, name@));
                                lemma_const_errors_of_value(item.kind.expr);
                                assert(!overflowing_const(*item));
                                assert(first_evaluation_errors(name@, *item) =~= Seq::<(Span, Seq<char>)>::empty());
                                assert(errors_view(self.errors@) =~= errors_view(before.errors@));
                            }
                        }
                    }
                    return value;
                }
                self.error(expr.span, cat3("unknown const `", name.as_str(), "`"));
                None
            },
            ConstExprKind::Param(name) => {
                if !contains_name(&scope.const_params, name.as_str()) {
                    self.error(expr.span, cat3("unknown const parameter `", name.as_str(), "`"));
                }
                None
            },
            ConstExprKind::AssocConst { ty, interface, name } => {
                if fuel == 0 {
                    return None;
                }
                let interface_ref = Node::new(interface.span, InterfaceRefKind { path: crate::ast::clone_path(interface), args: Vec::new() });
                if !self.proves_implements(ty, &interface_ref, scope, fuel - 1) {
                    let mut message = owned("cannot prove `");
                    let t = ty_display(ty);
                    push_string(&mut message, &t);
                    push_str(&mut message, "` implements `");
                    let i = path_name(interface);
                    push_string(&mut message, &i);
                    push_str(&mut message, "` for associated const `");
                    push_string(&mut message, name);
                    push_str(&mut message, "`");
                    self.error(expr.span, message);
                }
                self.resolve_assoc_const_value(ty, interface, name, scope, fuel - 1)
            },
            ConstExprKind::Unary { op, expr: inner } => {
                let value = self.eval_const_expr(inner, scope, fuel)?;
                match op {
                    ConstUnaryOp::Plus => Some(value),
                    ConstUnaryOp::Neg => Some(value.neg()),
                }
            },
            ConstExprKind::Binary { op, lhs, rhs } => {
                let l = self.eval_const_expr(lhs, scope, fuel)?;
                proof {
                    if closed_const(*expr) {
                        lemma_const_errors_of_value(**lhs);
                        assert(errors_view(self.errors@) =~= errors_view(old(self).errors@));
                    }
                }
                let r = match self.eval_const_expr(rhs, scope, fuel) {
                    Some(v) => v,
                    None => {
                        proof {
                            if closed_const(*expr) {
                                assert(errors_view(self.errors@) =~= errors_view(old(self).errors@) + const_errors(*expr));
                            }
                        }
                        return None;
                    },
                };
                let ghost before_op = self.errors@;
                proof {
                    if closed_const(*expr) {
                        lemma_const_errors_of_value(**lhs);
                        lemma_const_errors_of_value(**rhs);
                        assert(errors_view(before_op) =~= errors_view(old(self).errors@));
                    }
                }
                let result = match op {
                    ConstBinaryOp::Add => Some(int_add(&l, &r)),
                    ConstBinaryOp::Sub => Some(int_sub(&l, &r)),
                    ConstBinaryOp::Mul => Some(int_mul(&l, &r)),
                    ConstBinaryOp::Div => {
                        if r.is_zero() {
                            self.error(expr.span, owned("division by zero in const expression"));
                            None
                        } else {
                            Some(int_div(&l, &r))
                        }
                    },
                    ConstBinaryOp::Rem => {
                        if r.is_zero() {
                            self.error(expr.span, owned("remainder by zero in const expression"));
                            None
                        } else {
                            Some(int_rem(&l, &r))
                        }
                    },
                    ConstBinaryOp::Shl => match int_to_usize(&r) {
                        Some(shift) => Some(int_shl(&l, shift)),
                        None => {
                            self.error(expr.span, owned("shift amount does not fit usize"));
                            None
                        },
                    },
                    ConstBinaryOp::Shr => match int_to_usize(&r) {
                        Some(shift) => Some(int_shr(&l, shift)),
                        None => {
                            self.error(expr.span, owned("shift amount does not fit usize"));
                            None
                        },
                    },
                    ConstBinaryOp::BitAnd => Some(int_bitand(&l, &r)),
                    ConstBinaryOp::BitOr => Some(int_bitor(&l, &r)),
                    ConstBinaryOp::BitXor => Some(int_bitxor(&l, &r)),
                };
                proof {
                    if closed_const(*expr) {
                        assert(errors_view(self.errors@) =~= errors_view(old(self).errors@) + const_errors(*expr));
                    }
                }
                result
            },
            ConstExprKind::Cast { expr: inner, ty } => {
                let value = self.eval_const_expr(inner, scope, fuel)?;
                proof {
                    if closed_const(*expr) {
                        lemma_const_errors_of_value(**inner);
                        assert(errors_view(self.errors@) =~= errors_view(old(self).errors@));
                    }
                }
                if !fits_int_ty(&value, *ty) {
                    let mut message = owned("value `");
                    let text = int_to_string(&value);
                    push_string(&mut message, &text);
                    push_str(&mut message, "` does not fit in ");
                    let ty_name = ty.to_string();
                    push_string(&mut message, &ty_name);
                    self.error(expr.span, message);
                    proof {
                        if closed_const(*expr) {
                            assert(errors_view(self.errors@) =~= errors_view(old(self).errors@) + const_errors(*expr));
                        }
                    }
                    None
                } else {
                    Some(value)
                }
            },
        }
    }

    /// The value of `<ty as interface>::name` from the first impl that
    /// provides it, or from the interface's default.
    #[verifier::loop_isolation(false)]
    fn resolve_assoc_const_value(&mut self, ty: &Ty, interface: &Path, name: &String, scope: &GenericScope, fuel: u64) -> (r: Option<IntValue>)
        ensures
            errors_kept(old(self).errors@, final(self).errors@),
            state_kept(*old(self), *final(self)),
            fuel == 0 ==> r is None,
            r is Some ==> exists|j: int| 0 <= j < old(self).impls@.len()
                && ((#[trigger] old(self).impls@[j]).kind.interface matches Some(ii)
                    && reaches(old(self).interfaces@, ref_name(ii), join_segments(interface.kind.segment_views()))),
            forall|j: int, m: int| fuel > 1 && #[trigger] answering_const(old(self).impls@, old(self).interfaces@,
                join_segments(interface.kind.segment_views()), *ty, name@, j, m)
                && closed_const(old(self).impls@[j].kind.members@[m].kind->AssocConst_0.kind.expr)
                ==> opt_int(r) == const_value(old(self).impls@[j].kind.members@[m].kind->AssocConst_0.kind.expr),
            forall|n: Seq<char>| #[trigger] has_name(final(self).evaluating_consts@, n) <==> has_name(old(self).evaluating_consts@, n),
        decreases fuel, ty,
    {
        if fuel == 0 {
            return None;
        }
        let interface_ref = Node::new(interface.span, InterfaceRefKind { path: crate::ast::clone_path(interface), args: Vec::new() });
        proof {
            assert(interface_ref.kind.path.kind.segment_views() =~= interface.kind.segment_views());
        }
        let mut i: usize = 0;
        while i < self.impls.len()
            invariant
                errors_kept(old(self).errors@, self.errors@),
                state_kept(*old(self), *self),
                forall|n: Seq<char>| #[trigger] has_name(self.evaluating_consts@, n) <==> has_name(old(self).evaluating_consts@, n),
                0 <= i <= self.impls@.len(),
                fuel > 0,
                ref_name(interface_ref) == join_segments(interface.kind.segment_views()),
                fuel > 1 ==> forall|j: int, m: int| #[trigger] answering_const(old(self).impls@, old(self).interfaces@,
                    join_segments(interface.kind.segment_views()), *ty, name@, j, m) ==> i <= j,
            decreases self.impls@.len() - i,
        {
            let imp: &'a ImplItem = self.impls[i];
            let ghost ii = i as int;
            i = i + 1;
            let impl_interface = match &imp.kind.interface {
                Some(x) => x,
                None => continue,
            };
            if !self.interface_implies(impl_interface, &interface_ref) {
                continue;
            }
            proof {
                assert(interface_ref.kind.path.kind.segment_views() =~= interface.kind.segment_views());
                assert(old(self).impls@[ii].kind.interface matches Some(x)
                    && reaches(old(self).interfaces@, ref_name(x), join_segments(interface.kind.segment_views())));
            }
            if !self.ty_eq_no_diag(ty, &imp.kind.self_ty, scope, fuel - 1) {
                continue;
            }
            let impl_scope = scope_from_generics(&imp.kind.generics, &imp.kind.where_predicates);
            let mut k: usize = 0;
            while k < imp.kind.members.len()
                invariant
                    errors_kept(old(self).errors@, self.errors@),
                    state_kept(*old(self), *self),
                    forall|n: Seq<char>| #[trigger] has_name(self.evaluating_consts@, n) <==> has_name(old(self).evaluating_consts@, n),
                    0 <= k <= imp.kind.members@.len(),
                    fuel > 0,
                    forall|q: int| 0 <= q < k ==> !((#[trigger] imp.kind.members@[q]).kind matches ImplMemberKind::AssocConst(c)
                        && c.kind.name@ == name@),
                decreases imp.kind.members@.len() - k,
            {
                if let ImplMemberKind::AssocConst(assoc) = &imp.kind.members[k].kind {
                    if crate::text::str_eq(assoc.kind.name.as_str(), name.as_str()) {
                        return self.eval_const_expr(&assoc.kind.expr, &impl_scope, fuel - 1);
                    }
                }
                k = k + 1;
            }
            if let Some(reqs) = self.interface_reqs(impl_interface) {
                if let Some(sig) = table_get(&reqs.consts, name.as_str()) {
                    if let Some(default) = &sig.kind.default {
                        return self.eval_const_expr(default, &impl_scope, fuel - 1);
                    }
                }
            }
        }
        None
    }

    /// Whether a bound in scope or an impl shows that `ty` implements the
    /// interface.
    fn proves_implements(&self, ty: &Ty, interface: &InterfaceRef, scope: &GenericScope, fuel: u64) -> (r: bool)
        ensures
            fuel == 0 ==> !r,
            r ==> (exists|k: int| 0 <= k < scope.obligations@.len()
                    && reaches(self.interfaces@, ref_name((#[trigger] scope.obligations@[k]).1), ref_name(*interface)))
                || (exists|j: int| 0 <= j < self.impls@.len()
                    && ((#[trigger] self.impls@[j]).kind.interface matches Some(ii)
                        && reaches(self.interfaces@, ref_name(ii), ref_name(*interface)))),
            fuel > 1 && (exists|k: int| 0 <= k < scope.obligations@.len()
                && same_primitive(*ty, (#[trigger] scope.obligations@[k]).0)
                && ref_name(scope.obligations@[k].1) == ref_name(*interface)) ==> r,
        decreases fuel, ty,
    {
        if fuel == 0 {
            return false;
        }
        let mut i: usize = 0;
        while i < scope.obligations.len()
            invariant
                0 <= i <= scope.obligations@.len(),
                fuel > 0,
                forall|k: int| 0 <= k < i ==> !(fuel > 1 && same_primitive(*ty, (#[trigger] scope.obligations@[k]).0)
                    && ref_name(scope.obligations@[k].1) == ref_name(*interface)),
            decreases scope.obligations@.len() - i,
        {
            let (ob_ty, ob_interface) = &scope.obligations[i];
            if self.ty_eq_no_diag(ty, ob_ty, scope, fuel - 1) && self.interface_implies(ob_interface, interface) {
                proof {
                    assert(reaches(self.interfaces@, ref_name(scope.obligations@[i as int].1), ref_name(*interface)));
                }
                return true;
            }
            i = i + 1;
        }
        let mut j: usize = 0;
        while j < self.impls.len()
            invariant
                0 <= j <= self.impls@.len(),
                fuel > 0,
            decreases self.impls@.len() - j,
        {
            let imp = self.impls[j];
            if let Some(imp_interface) = &imp.kind.interface {
                if self.ty_eq_no_diag(ty, &imp.kind.self_ty, scope, fuel - 1) && self.interface_implies(imp_interface, interface) {
                    proof {
                        assert(self.impls@[j as int].kind.interface matches Some(ii)
                            && reaches(self.interfaces@, ref_name(ii), ref_name(*interface)));
                    }
                    return true;
                }
            }
            j = j + 1;
        }
        false
    }

    /// Whether `actual` is `required` or inherits it.
    fn interface_implies(&self, actual: &InterfaceRef, required: &InterfaceRef) -> (r: bool)
        ensures
            ref_name(*actual) == ref_name(*required) ==> r,
            r ==> reaches(self.interfaces@, ref_name(*actual), ref_name(*required)),
    {
        let required_name = path_name(&required.kind.path);
        let mut stack: Vec<String> = Vec::new();
        self.interface_implies_name(actual, &required_name, &mut stack, EVAL_FUEL)
    }

    fn interface_implies_name(&self, actual: &InterfaceRef, required_name: &String, stack: &mut Vec<String>, fuel: u64) -> (r: bool)
        ensures
            ref_name(*actual) == required_name@ ==> r,
            r ==> reaches(self.interfaces@, ref_name(*actual), required_name@),
            final(stack)@ == old(stack)@,
        decreases fuel,
    {
        let actual_name = path_name(&actual.kind.path);
        if crate::text::str_eq(actual_name.as_str(), required_name.as_str()) {
            proof {
                let q = seq![actual_name@];
                assert(inherits_along(self.interfaces@, q));
            }
            return true;
        }
        if contains_name(stack, actual_name.as_str()) {
            return false;
        }
        let item = match table_get(&self.interfaces, actual_name.as_str()) {
            Some(item) => item,
            None => return false,
        };
        if fuel == 0 {
            return false;
        }
        let ghost stack0 = stack@;
        let ghost name = actual_name@;
        stack.push(actual_name);
        let ghost opened = stack@;
        let mut result = false;
        let mut i: usize = 0;
        while i < item.kind.super_interfaces.len()
            invariant_except_break
                0 <= i <= item.kind.super_interfaces@.len(),
                fuel > 0,
                stack@ == opened,
                !result,
            ensures
                stack@ == opened,
                result ==> exists|k: int| 0 <= k < item.kind.super_interfaces@.len()
                    && reaches(self.interfaces@, ref_name(#[trigger] item.kind.super_interfaces@[k]), required_name@),
            decreases item.kind.super_interfaces@.len() - i,
        {
            if self.interface_implies_name(&item.kind.super_interfaces[i], required_name, stack, fuel - 1) {
                result = true;
                break;
            }
            i = i + 1;
        }
        stack.pop();
        proof {
            assert(stack@ =~= stack0);
            if result {
                let k = choose|k: int| 0 <= k < item.kind.super_interfaces@.len()
                    && reaches(self.interfaces@, ref_name(#[trigger] item.kind.super_interfaces@[k]), required_name@);
                let sup = ref_name(item.kind.super_interfaces@[k]);
                let q = choose|q: Seq<Seq<char>>| q.len() >= 1 && q[0] == sup && q.last() == required_name@
                    && #[trigger] inherits_along(self.interfaces@, q);
                let w = seq![name] + q;
                assert(inherits(self.interfaces@, name, sup));
                assert forall|j: int| 0 <= j < w.len() - 1 implies #[trigger] inherits(self.interfaces@, w[j], w[j + 1]) by {
                    if j > 0 {
                        lemma_inherits_step(self.interfaces@, q, j - 1);
                        assert(w[j] == q[j - 1] && w[j + 1] == q[j]);
                    }
                }
                assert(w.last() == q.last());
                assert(inherits_along(self.interfaces@, w));
            }
        }
        result
    }

    /// The requirements of an interface, with inherited ones; `None` for an
    /// unknown interface or an inheritance cycle.
    fn interface_reqs(&self, interface: &InterfaceRef) -> (r: Option<InterfaceReqs<'a>>)
        ensures
            r is Some <==> table_lookup(self.interfaces@, ref_name(*interface)) is Some,
            r matches Some(reqs) ==> own_members_required(*table_lookup(self.interfaces@, ref_name(*interface))->0,
                reqs.methods@, reqs.consts@),
            r matches Some(reqs) ==> own_consts_last(*table_lookup(self.interfaces@, ref_name(*interface))->0, reqs.consts@),
    {
        let mut stack: Vec<String> = Vec::new();
        self.interface_reqs_no_diag(interface, &mut stack, EVAL_FUEL)
    }

    fn interface_reqs_no_diag(&self, interface: &InterfaceRef, stack: &mut Vec<String>, fuel: u64) -> (r: Option<InterfaceReqs<'a>>)
        ensures
            final(stack)@ == old(stack)@,
            r is Some <==> (fuel > 0 && !has_name(old(stack)@, ref_name(*interface))
                && table_lookup(self.interfaces@, ref_name(*interface)) is Some),
            r matches Some(reqs) ==> own_members_required(*table_lookup(self.interfaces@, ref_name(*interface))->0,
                reqs.methods@, reqs.consts@),
            r matches Some(reqs) ==> own_consts_last(*table_lookup(self.interfaces@, ref_name(*interface))->0, reqs.consts@),
        decreases fuel,
    {
        let name = path_name(&interface.kind.path);
        if contains_name(stack, name.as_str()) {
            return None;
        }
        let item = table_get(&self.interfaces, name.as_str())?;
        if fuel == 0 {
            return None;
        }
        let ghost stack0 = stack@;
        stack.push(name);
        let ghost opened = stack@;
        let mut reqs = InterfaceReqs { methods: Vec::new(), consts: Vec::new() };
        let mut i: usize = 0;
        while i < item.kind.super_interfaces.len()
            invariant
                0 <= i <= item.kind.super_interfaces@.len(),
                fuel > 0,
                stack@ == opened,
            decreases item.kind.super_interfaces@.len() - i,
        {
            if let Some(parent) = self.interface_reqs_no_diag(&item.kind.super_interfaces[i], stack, fuel - 1) {
                let mut k: usize = 0;
                while k < parent.methods.len()
                    invariant
                        0 <= k <= parent.methods@.len(),
                    decreases parent.methods@.len() - k,
                {
                    table_insert(&mut reqs.methods, &parent.methods[k].0, parent.methods[k].1);
                    k = k + 1;
                }
                let mut k: usize = 0;
                while k < parent.consts.len()
                    invariant
                        0 <= k <= parent.consts@.len(),
                    decreases parent.consts@.len() - k,
                {
                    table_insert(&mut reqs.consts, &parent.consts[k].0, parent.consts[k].1);
                    k = k + 1;
                }
            }
            i = i + 1;
        }
        let mut m: usize = 0;
        while m < item.kind.members.len()
            invariant
                0 <= m <= item.kind.members@.len(),
                stack@ == opened,
                forall|m2: int| 0 <= m2 < m ==> match (#[trigger] item.kind.members@[m2]).kind {
                    InterfaceMemberKind::Method(sig) => table_has(reqs.methods@, sig.kind.name@),
                    InterfaceMemberKind::AssocConst(sig) => table_has(reqs.consts@, sig.kind.name@),
                },
                forall|n: Seq<char>| #[trigger] own_const_sig(item.kind.members@.take(m as int), n) matches Some(c)
                    ==> (table_lookup(reqs.consts@, n) matches Some(t) && *t == c),
            decreases item.kind.members@.len() - m,
        {
            let ghost before = reqs.consts@;
            match &item.kind.members[m].kind {
                InterfaceMemberKind::Method(sig) => {
                    table_insert(&mut reqs.methods, &sig.kind.name, sig);
                },
                InterfaceMemberKind::AssocConst(sig) => {
                    table_insert(&mut reqs.consts, &sig.kind.name, sig);
                },
            }
            proof {
                let members = item.kind.members@;
                assert(members.take(m + 1).drop_last() =~= members.take(m as int));
                assert(members.take(m + 1).last() == members[m as int]);
                assert forall|n: Seq<char>| #[trigger] own_const_sig(members.take(m + 1), n) is Some
                    implies (table_lookup(reqs.consts@, n) matches Some(t) && *t == own_const_sig(members.take(m + 1), n)->0) by {
                    if members[m as int].kind matches InterfaceMemberKind::AssocConst(c2) && c2.kind.name@ == n {
                    } else {
                        assert(own_const_sig(members.take(m + 1), n) == own_const_sig(members.take(m as int), n));
                        if let InterfaceMemberKind::AssocConst(c2) = members[m as int].kind {
                            assert(table_lookup(reqs.consts@, n) == table_lookup(before, n));
                        }
                    }
                }
            }
            m = m + 1;
        }
        proof {
            assert(item.kind.members@.take(item.kind.members@.len() as int) =~= item.kind.members@);
        }
        stack.pop();
        proof {
            assert(stack@ =~= stack0);
        }
        Some(reqs)
    }

    /// Type equality, with unequal constants reported: `!` equals every
    /// type, and types of different shapes are never equal.
    fn ty_eq(&mut self, a: &Ty, b: &Ty, scope: &GenericScope) -> (r: bool)
        ensures
            errors_kept(old(self).errors@, final(self).errors@),
            state_kept(*old(self), *final(self)),
            a.kind is Never || b.kind is Never ==> r,
            (a.kind is Unit && b.kind is Unit) || (a.kind is Bool && b.kind is Bool)
                || (a.kind is SelfTy && b.kind is SelfTy) ==> r,
            (a.kind is Int && b.kind is Int) ==> (r == (a.kind->Int_0 == b.kind->Int_0)),
            r ==> (a.kind is Never || b.kind is Never || same_shape(a.kind, b.kind)),
            simple_ty(*a) ==> final(self).errors@ == old(self).errors@
                && (r <==> (a.kind == b.kind || b.kind is Never)),
    {
        self.ty_eq_impl(a, b, scope, true, EVAL_FUEL)
    }

    /// Type equality, with nothing reported.
    fn ty_eq_no_diag(&self, a: &Ty, b: &Ty, scope: &GenericScope, fuel: u64) -> (r: bool)
        ensures
            fuel == 0 ==> !r,
            fuel > 0 ==> {
                &&& a.kind is Never || b.kind is Never ==> r
                &&& (a.kind is Unit && b.kind is Unit) || (a.kind is Bool && b.kind is Bool)
                    || (a.kind is SelfTy && b.kind is SelfTy) ==> r
                &&& (a.kind is Int && b.kind is Int) ==> (r == (a.kind->Int_0 == b.kind->Int_0))
                &&& same_nominal(*a, *b) ==> r
            },
            r ==> (a.kind is Never || b.kind is Never || same_shape(a.kind, b.kind)),
        decreases fuel, a,
    {
        if fuel == 0 {
            return false;
        }
        let mut checker = self.checker_for_compare();
        checker.ty_eq_impl(a, b, scope, false, fuel - 1)
    }

    /// Whether two types are the same; `!` equals every type, and constant
    /// arguments are compared by value.
    fn ty_eq_impl(&mut self, a: &Ty, b: &Ty, scope: &GenericScope, emit_errors: bool, fuel: u64) -> (r: bool)
        ensures
            errors_kept(old(self).errors@, final(self).errors@),
            state_kept(*old(self), *final(self)),
            a.kind is Never || b.kind is Never ==> r,
            (a.kind is Unit && b.kind is Unit) || (a.kind is Bool && b.kind is Bool)
                || (a.kind is SelfTy && b.kind is SelfTy) ==> r,
            (a.kind is Int && b.kind is Int) ==> (r == (a.kind->Int_0 == b.kind->Int_0)),
            r ==> (a.kind is Never || b.kind is Never || same_shape(a.kind, b.kind)),
            same_nominal(*a, *b) ==> r,
            simple_ty(*a) ==> final(self).errors@ == old(self).errors@
                && (r <==> (a.kind == b.kind || b.kind is Never)),
        decreases fuel, a,
    {
        match (&a.kind, &b.kind) {
            (TyKind::Unit, TyKind::Unit) | (TyKind::Bool, TyKind::Bool) | (TyKind::Never, TyKind::Never)
            | (TyKind::SelfTy, TyKind::SelfTy) => true,
            (TyKind::Int(x), TyKind::Int(y)) => *x == *y,
            (TyKind::Path { path: ap, args: aa }, TyKind::Path { path: bp, args: ba }) => {
                let an = path_name(ap);
                let bn = path_name(bp);
                crate::text::str_eq(an.as_str(), bn.as_str()) && self.args_eq(aa, ba, scope, emit_errors, fuel)
            },
            (TyKind::Array { elem: ae, len: al }, TyKind::Array { elem: be, len: bl }) => {
                self.ty_eq_impl(ae, be, scope, emit_errors, fuel) && self.const_eq(al, bl, scope, emit_errors, fuel)
            },
            (TyKind::Ref { mutability: am, ty: at }, TyKind::Ref { mutability: bm, ty: bt }) => {
                *am == *bm && self.ty_eq_impl(at, bt, scope, emit_errors, fuel)
            },
            (TyKind::Fn { params: ap, ret: ar }, TyKind::Fn { params: bp, ret: br }) => {
                self.tys_eq(ap, bp, scope, emit_errors, fuel) && self.ty_eq_impl(ar, br, scope, emit_errors, fuel)
            },
            (TyKind::Never, _) | (_, TyKind::Never) => true,
            _ => false,
        }
    }

    fn args_eq(&mut self, aa: &Vec<GenericArg>, ba: &Vec<GenericArg>, scope: &GenericScope, emit_errors: bool, fuel: u64) -> (r: bool)
        ensures
            errors_kept(old(self).errors@, final(self).errors@),
            state_kept(*old(self), *final(self)),
            aa@.len() != ba@.len() ==> !r,
            aa@.len() == 0 && ba@.len() == 0 ==> r,
        decreases fuel, aa,
    {
        if aa.len() != ba.len() {
            return false;
        }
        let mut i: usize = 0;
        while i < aa.len()
            invariant
                errors_kept(old(self).errors@, self.errors@),
                state_kept(*old(self), *self),
                0 <= i <= aa@.len(),
                aa@.len() == ba@.len(),
            decreases aa@.len() - i,
        {
            let same = match (&aa[i].kind, &ba[i].kind) {
                (GenericArgKind::Ty(x), GenericArgKind::Ty(y)) => self.ty_eq_impl(x, y, scope, emit_errors, fuel),
                (GenericArgKind::Const(x), GenericArgKind::Const(y)) => self.const_eq(x, y, scope, emit_errors, fuel),
                _ => false,
            };
            if !same {
                return false;
            }
            i = i + 1;
        }
        true
    }

    fn tys_eq(&mut self, ap: &Vec<Ty>, bp: &Vec<Ty>, scope: &GenericScope, emit_errors: bool, fuel: u64) -> (r: bool)
        ensures
            errors_kept(old(self).errors@, final(self).errors@),
            state_kept(*old(self), *final(self)),
            ap@.len() != bp@.len() ==> !r,
            ap@.len() == 0 && bp@.len() == 0 ==> r,
            r ==> forall|k: int| 0 <= k < ap@.len() ==> ((#[trigger] ap@[k]).kind is Never || bp@[k].kind is Never
                || same_shape(ap@[k].kind, bp@[k].kind)),
        decreases fuel, ap,
    {
        if ap.len() != bp.len() {
            return false;
        }
        let mut i: usize = 0;
        while i < ap.len()
            invariant
                errors_kept(old(self).errors@, self.errors@),
                state_kept(*old(self), *self),
                0 <= i <= ap@.len(),
                ap@.len() == bp@.len(),
                forall|k: int| 0 <= k < i ==> ((#[trigger] ap@[k]).kind is Never || bp@[k].kind is Never
                    || same_shape(ap@[k].kind, bp@[k].kind)),
            decreases ap@.len() - i,
        {
            if !self.ty_eq_impl(&ap[i], &bp[i], scope, emit_errors, fuel) {
                return false;
            }
            i = i + 1;
        }
        true
    }

    /// Whether two constant expressions are equal: by value when both have
    /// one, node for node when neither has.
    fn const_eq(&mut self, a: &ConstExpr, b: &ConstExpr, scope: &GenericScope, emit_errors: bool, fuel: u64) -> (r: bool)
        ensures
            errors_kept(old(self).errors@, final(self).errors@),
            state_kept(*old(self), *final(self)),
            fuel == 0 ==> !r,
            fuel > 0 && closed_const(*a) && closed_const(*b) && const_value(*a) is Some && const_value(*b) is Some
                ==> r == (const_value(*a) == const_value(*b)),
            fuel > 0 && closed_const(*a) && closed_const(*b) && (const_value(*a) is Some) != (const_value(*b) is Some) ==> !r,
        decreases fuel, a,
    {
        if fuel == 0 {
            return false;
        }
        let av = self.eval_const_expr(a, scope, fuel - 1);
        let bv = self.eval_const_expr(b, scope, fuel - 1);
        match (av, bv) {
            (Some(x), Some(y)) => int_eq(&x, &y),
            (None, None) => const_kind_eq(a, b),
            _ => {
                if emit_errors {
                    self.error(a.span.join(b.span), owned("const expressions are not equal"));
                }
                false
            },
        }
    }
}

/// The scope of an item's generic parameters: their names, their bounds and
/// its `where` clauses as obligations.
fn scope_from_generics(generics: &Vec<GenericParam>, predicates: &Vec<WherePredicate>) -> (r: GenericScope)
    ensures
        forall|n: Seq<char>| #[trigger] has_name(r.type_params@, n) <==> type_param_named(generics@, n),
        forall|n: Seq<char>| #[trigger] has_name(r.const_params@, n) ==> const_param_named(generics@, n),
{
    let mut scope = GenericScope::empty();
    extend_scope_with_generics(&mut scope, generics);
    let ghost params = scope.type_params@;
    let ghost cparams = scope.const_params@;
    let mut i: usize = 0;
    while i < generics.len()
        invariant
            0 <= i <= generics@.len(),
            scope.type_params@ == params,
            scope.const_params@ == cparams,
        decreases generics@.len() - i,
    {
        if let GenericParamKind::Type { name, bounds } = &generics[i].kind {
            let ty = param_ty(generics[i].span, name);
            let mut k: usize = 0;
            while k < bounds.len()
                invariant
                    0 <= k <= bounds@.len(),
                    scope.type_params@ == params,
                    scope.const_params@ == cparams,
                decreases bounds@.len() - k,
            {
                scope.obligations.push((crate::ast::clone_ty(&ty), crate::ast::clone_interface_ref(&bounds[k])));
                k = k + 1;
            }
        }
        i = i + 1;
    }
    let mut j: usize = 0;
    while j < predicates.len()
        invariant
            0 <= j <= predicates@.len(),
            scope.type_params@ == params,
            scope.const_params@ == cparams,
        decreases predicates@.len() - j,
    {
        if let WherePredicateKind::Implements { ty, interface } = &predicates[j].kind {
            scope.obligations.push((crate::ast::clone_ty(ty), crate::ast::clone_interface_ref(interface)));
        }
        j = j + 1;
    }
    scope
}

/// Whether the generic parameter is a type parameter named `n`.
pub open spec fn is_type_param_named(g: GenericParam, n: Seq<char>) -> bool {
    g.kind matches GenericParamKind::Type { name, .. } && name@ == n
}

/// Whether one of the generic parameters is a type parameter named `n`.
pub open spec fn type_param_named(generics: Seq<GenericParam>, n: Seq<char>) -> bool {
    exists|i: int| 0 <= i < generics.len() && is_type_param_named(#[trigger] generics[i], n)
}

fn extend_scope_with_generics(scope: &mut GenericScope, generics: &Vec<GenericParam>)
    ensures
        forall|n: Seq<char>| #[trigger] has_name(final(scope).type_params@, n)
            <==> (has_name(old(scope).type_params@, n) || type_param_named(generics@, n)),
        forall|n: Seq<char>| #[trigger] has_name(final(scope).const_params@, n)
            ==> (has_name(old(scope).const_params@, n) || const_param_named(generics@, n)),
{
    let mut i: usize = 0;
    while i < generics.len()
        invariant
            0 <= i <= generics@.len(),
            forall|n: Seq<char>| #[trigger] has_name(scope.type_params@, n)
                <==> (has_name(old(scope).type_params@, n) || type_param_named(generics@.take(i as int), n)),
            forall|n: Seq<char>| #[trigger] has_name(scope.const_params@, n)
                ==> (has_name(old(scope).const_params@, n) || const_param_named(generics@, n)),
        decreases generics@.len() - i,
    {
        proof {
            assert forall|n: Seq<char>| type_param_named(generics@.take(i as int + 1), n)
                <==> (type_param_named(generics@.take(i as int), n)
                    || is_type_param_named(generics@[i as int], n)) by {
                if type_param_named(generics@.take(i as int + 1), n) {
                    let w = choose|w: int| 0 <= w < i + 1 && is_type_param_named(#[trigger] generics@.take(i as int + 1)[w], n);
                    if w < i {
                        assert(generics@.take(i as int)[w] == generics@.take(i as int + 1)[w]);
                    }
                }
                if type_param_named(generics@.take(i as int), n) {
                    let w = choose|w: int| 0 <= w < i && is_type_param_named(#[trigger] generics@.take(i as int)[w], n);
                    assert(generics@.take(i as int + 1)[w] == generics@.take(i as int)[w]);
                }
                if is_type_param_named(generics@[i as int], n) {
                    assert(generics@.take(i as int + 1)[i as int] == generics@[i as int]);
                }
            }
        }
        let ghost prev = scope.type_params@;
        match &generics[i].kind {
            GenericParamKind::Type { name, .. } => {
                insert_name(&mut scope.type_params, name);
                assert forall|n: Seq<char>| #[trigger] has_name(scope.type_params@, n)
                    <==> (has_name(prev, n) || is_type_param_named(generics@[i as int], n)) by {}
            },
            GenericParamKind::Const { name, .. } => {
                let ghost cprev = scope.const_params@;
                insert_name(&mut scope.const_params, name);
                assert(scope.type_params@ == prev);
                assert forall|n: Seq<char>| #[trigger] has_name(scope.const_params@, n)
                    implies (has_name(old(scope).const_params@, n) || const_param_named(generics@, n)) by {
                    if !has_name(cprev, n) {
                        assert(is_const_param_named(generics@[i as int], n));
                    }
                }
            },
        }
        assert forall|n: Seq<char>| #[trigger] has_name(scope.type_params@, n)
            <==> (has_name(old(scope).type_params@, n) || type_param_named(generics@.take(i as int + 1), n)) by {
            assert(has_name(prev, n) <==> (has_name(old(scope).type_params@, n)
                || type_param_named(generics@.take(i as int), n)));
        }
        i = i + 1;
    }
    proof {
        assert(generics@.take(generics@.len() as int) =~= generics@);
    }
}


// ---------------------------------------------------------------------
// Message helpers

/// `a`, the rendering of `t1`, `b`, the rendering of `t2`, and `c`.
fn ty_message2(a: &str, t1: &Ty, b: &str, t2: &Ty, c: &str) -> (r: String)
    ensures
        r@ == a@ + ty_text(*t1) + b@ + ty_text(*t2) + c@,
{
    let mut s = owned(a);
    let x = ty_display(t1);
    push_string(&mut s, &x);
    push_str(&mut s, b);
    let y = ty_display(t2);
    push_string(&mut s, &y);
    push_str(&mut s, c);
    s
}

/// `a`, `n`, `b`, the rendering of `t1`, `c`, the rendering of `t2`, `d`.
fn named_ty_message2(a: &str, n: &str, b: &str, t1: &Ty, c: &str, t2: &Ty, d: &str) -> (r: String)
    ensures
        r@ == a@ + n@ + b@ + ty_text(*t1) + c@ + ty_text(*t2) + d@,
{
    let mut s = cat3(a, n, b);
    let x = ty_display(t1);
    push_string(&mut s, &x);
    push_str(&mut s, c);
    let y = ty_display(t2);
    push_string(&mut s, &y);
    push_str(&mut s, d);
    s
}

/// `a`, the decimal `n`, `b`.
fn count_message(a: &str, n: usize, b: &str) -> (r: String)
    ensures
        r@ == a@ + crate::text::nat_decimal(n as nat) + b@,
{
    let mut s = owned(a);
    push_usize(&mut s, n);
    push_str(&mut s, b);
    s
}

/// `a`, the decimal value `v`, `b`, the name of `ty`.
fn value_message(a: &str, v: &IntValue, b: &str, ty: IntTy) -> (r: String)
    ensures
        r@ == a@ + int_decimal(v@) + b@ + int_ty_name(ty),
{
    let mut s = owned(a);
    let text = int_to_string(v);
    push_string(&mut s, &text);
    push_str(&mut s, b);
    let t = ty.to_string();
    push_string(&mut s, &t);
    s
}

/// A type as an `ExprTy` that is not known to diverge.
fn plain(ty: Ty) -> (r: ExprTy)
    ensures
        r.ty == ty,
        !r.diverges,
{
    ExprTy { ty, diverges: false }
}

/// The result of an ill-typed expression: `!`, diverging.
fn error_ty(span: Span) -> (r: ExprTy)
    ensures
        r.ty.span == span,
        r.ty.kind is Never,
        r.diverges,
{
    ExprTy { ty: Node::new(span, TyKind::Never), diverges: true }
}

/// The type behind a reference type.
fn peel_ref(ty: &Ty) -> (r: Option<&Ty>)
    ensures
        r is Some <==> ty.kind is Ref,
        ty.kind matches TyKind::Ref { ty: inner, .. } ==> (r matches Some(t) && *t == *inner),
{
    match &ty.kind {
        TyKind::Ref { ty: inner, .. } => Some(inner),
        _ => None,
    }
}

fn is_int(ty: &Ty) -> (r: bool)
    ensures
        r == (ty.kind is Int),
{
    match &ty.kind {
        TyKind::Int(_) => true,
        _ => false,
    }
}

fn is_unit(ty: &Ty) -> (r: bool)
    ensures
        r == (ty.kind is Unit),
{
    match &ty.kind {
        TyKind::Unit => true,
        _ => false,
    }
}

fn is_bool(ty: &Ty) -> (r: bool)
    ensures
        r == (ty.kind is Bool),
{
    match &ty.kind {
        TyKind::Bool => true,
        _ => false,
    }
}

// ---------------------------------------------------------------------
// Local variables

/// The type bound to `name`, if any.
fn locals_get<'b>(locals: &'b Vec<(String, Ty)>, name: &str) -> (r: Option<&'b Ty>)
    ensures
        r is None <==> table_lookup(locals@, name@) is None,
        r matches Some(t) ==> table_lookup(locals@, name@) == Some(*t),
{
    let mut i: usize = 0;
    proof {
        assert(locals@.subrange(0, locals@.len() as int) =~= locals@);
    }
    while i < locals.len()
        invariant
            0 <= i <= locals@.len(),
            table_lookup(locals@, name@) == table_lookup(locals@.subrange(i as int, locals@.len() as int), name@),
        decreases locals@.len() - i,
    {
        proof {
            assert(locals@.subrange(i as int, locals@.len() as int).drop_first()
                =~= locals@.subrange(i as int + 1, locals@.len() as int));
        }
        if crate::text::str_eq(locals[i].0.as_str(), name) {
            return Some(&locals[i].1);
        }
        i = i + 1;
    }
    None
}

/// Replacing an entry by one of the same name changes the lookup of that
/// name only, which then finds the new entry if no earlier one has it.
proof fn lemma_lookup_update<T>(t: Seq<(String, T)>, i: int, e: (String, T), n: Seq<char>)
    requires
        0 <= i < t.len(),
        e.0@ == t[i].0@,
    ensures
        n != e.0@ ==> table_lookup(t.update(i, e), n) == table_lookup(t, n),
        (n == e.0@ && forall|k: int| 0 <= k < i ==> (#[trigger] t[k]).0@ != n)
            ==> table_lookup(t.update(i, e), n) == Some(e.1),
    decreases t.len(),
{
    if i > 0 {
        assert(t.update(i, e).drop_first() =~= t.drop_first().update(i - 1, e));
        assert forall|k: int| 0 <= k < i - 1 implies #[trigger] t.drop_first()[k] == t[k + 1] by {}
        if n == e.0@ && forall|k: int| 0 <= k < i ==> (#[trigger] t[k]).0@ != n {
            assert(t[0].0@ != n);
            assert forall|k: int| 0 <= k < i - 1 implies (#[trigger] t.drop_first()[k]).0@ != n by {
                assert(t[k + 1].0@ != n);
            }
        }
        lemma_lookup_update(t.drop_first(), i - 1, e, n);
    } else {
        assert(t.update(0, e).drop_first() =~= t.drop_first());
    }
}

/// Appending an entry leaves every lookup that already succeeded as it
/// was, and makes the new name found where it was not.
proof fn lemma_lookup_push<T>(t: Seq<(String, T)>, e: (String, T), n: Seq<char>)
    ensures
        table_lookup(t.push(e), n) == (if table_lookup(t, n) is Some {
            table_lookup(t, n)
        } else if e.0@ == n {
            Some(e.1)
        } else {
            None
        }),
    decreases t.len(),
{
    if t.len() > 0 {
        assert(t.push(e).drop_first() =~= t.drop_first().push(e));
        lemma_lookup_push(t.drop_first(), e, n);
    } else {
        assert(t.push(e).drop_first() =~= t);
    }
}

/// Binds `name` to `ty`, replacing an earlier binding of it; every other
/// binding stays as it was.
fn locals_insert(locals: &mut Vec<(String, Ty)>, name: &String, ty: Ty)
    ensures
        table_lookup(final(locals)@, name@) == Some(ty),
        forall|n: Seq<char>| n != name@ ==> #[trigger] table_lookup(final(locals)@, n) == table_lookup(old(locals)@, n),
{
    let mut i: usize = 0;
    while i < locals.len()
        invariant
            0 <= i <= locals@.len(),
            locals@ == old(locals)@,
            forall|k: int| 0 <= k < i ==> (#[trigger] locals@[k]).0@ != name@,
        decreases locals@.len() - i,
    {
        if crate::text::str_eq(locals[i].0.as_str(), name.as_str()) {
            let entry = (name.clone(), ty);
            proof {
                lemma_lookup_update(old(locals)@, i as int, entry, name@);
                assert forall|n: Seq<char>| n != name@ implies #[trigger] table_lookup(old(locals)@.update(i as int, entry), n)
                    == table_lookup(old(locals)@, n) by {
                    lemma_lookup_update(old(locals)@, i as int, entry, n);
                }
            }
            locals.set(i, entry);
            return;
        }
        i = i + 1;
    }
    let entry = (name.clone(), ty);
    proof {
        lemma_lookup_has(old(locals)@, name@);
        lemma_lookup_push(old(locals)@, entry, name@);
        assert forall|n: Seq<char>| n != name@ implies #[trigger] table_lookup(old(locals)@.push(entry), n)
            == table_lookup(old(locals)@, n) by {
            lemma_lookup_push(old(locals)@, entry, n);
        }
    }
    locals.push(entry);
}

fn copy_locals(locals: &Vec<(String, Ty)>) -> (r: Vec<(String, Ty)>)
    ensures
        r@.len() == locals@.len(),
        forall|k: int| 0 <= k < r@.len() ==> {
            &&& (#[trigger] r@[k]).0@ == locals@[k].0@
            &&& r@[k].1.span == locals@[k].1.span
            &&& forall|s: Seq<char>| ty_text_with(r@[k].1, s) == ty_text_with(locals@[k].1, s)
            &&& ty_same(r@[k].1, locals@[k].1)
        },
{
    let mut out: Vec<(String, Ty)> = Vec::new();
    let mut i: usize = 0;
    while i < locals.len()
        invariant
            0 <= i <= locals@.len(),
            out@.len() == i,
            forall|k: int| 0 <= k < i ==> {
                &&& (#[trigger] out@[k]).0@ == locals@[k].0@
                &&& out@[k].1.span == locals@[k].1.span
                &&& forall|s: Seq<char>| ty_text_with(out@[k].1, s) == ty_text_with(locals@[k].1, s)
                &&& ty_same(out@[k].1, locals@[k].1)
            },
        decreases locals@.len() - i,
    {
        let (n, t) = &locals[i];
        out.push((n.clone(), crate::ast::clone_ty(t)));
        i = i + 1;
    }
    out
}

// ---------------------------------------------------------------------
// Substitutions

/// The type with `Self` replaced by `self_ty`, inside constants too: it is
/// written as the type is, with `self_ty` written where `Self` stood.
fn substitute_self(ty: &Ty, self_ty: &Ty) -> (r: Ty)
    ensures
        ty_text(r) == ty_text_with(*ty, ty_text(*self_ty)),
        ty.kind is Unit ==> r.kind is Unit,
        ty.kind is Bool ==> r.kind is Bool,
        ty.kind is Int ==> r.kind == ty.kind,
    decreases ty,
{
    let ghost st = ty_text(*self_ty);
    match &ty.kind {
        TyKind::SelfTy => crate::ast::clone_ty(self_ty),
        TyKind::Array { elem, len } => {
            let e = substitute_self(elem, self_ty);
            let l = substitute_self_const(len, self_ty);
            let r = Node::new(ty.span, TyKind::Array { elem: Box::new(e), len: l });
            proof {
                assert(ty_text(r) == "["@ + ty_text(e) + "; "@ + const_text(l) + "]"@);
            }
            r
        },
        TyKind::Ref { mutability, ty: inner } => {
            let i = substitute_self(inner, self_ty);
            let r = Node::new(ty.span, TyKind::Ref { mutability: *mutability, ty: Box::new(i) });
            proof {
                assert(ty_text_with(r, "Self"@) == ty_text_with(*ty, st));
            }
            r
        },
        TyKind::Fn { params, ret } => {
            let ps = substitute_self_tys(params, self_ty);
            let rt = substitute_self(ret, self_ty);
            let r = Node::new(ty.span, TyKind::Fn { params: ps, ret: Box::new(rt) });
            proof {
                assert(ty_text(r) == "fn("@ + tys_text(ps@) + ") -> "@ + ty_text(rt));
            }
            r
        },
        TyKind::Path { path, args } => {
            let p = crate::ast::clone_path(path);
            let a = substitute_self_args(args, self_ty);
            let r = Node::new(ty.span, TyKind::Path { path: p, args: a });
            proof {
                assert(p.kind.segment_views() =~= path.kind.segment_views());
                assert(ty_text_with(r, "Self"@) == ty_text_with(*ty, st));
            }
            r
        },
        _ => {
            let r = crate::ast::clone_ty(ty);
            proof {
                assert(ty_text_with(r, "Self"@) == ty_text_with(*ty, "Self"@));
            }
            r
        },
    }
}

fn substitute_self_tys(tys: &Vec<Ty>, self_ty: &Ty) -> (r: Vec<Ty>)
    ensures
        r@.len() == tys@.len(),
        tys_text(r@) == tys_text_with(tys@, ty_text(*self_ty)),
    decreases tys,
{
    let mut out: Vec<Ty> = Vec::new();
    let mut i: usize = 0;
    while i < tys.len()
        invariant
            0 <= i <= tys@.len(),
            out@.len() == i,
            forall|k: int| 0 <= k < i ==> ty_text(#[trigger] out@[k]) == ty_text_with(tys@[k], ty_text(*self_ty)),
        decreases tys@.len() - i,
    {
        out.push(substitute_self(&tys[i], self_ty));
        i = i + 1;
    }
    proof {
        crate::ast::lemma_tys_text_pointwise(out@, "Self"@, tys@, ty_text(*self_ty));
    }
    out
}

fn substitute_self_args(args: &Vec<GenericArg>, self_ty: &Ty) -> (r: Vec<GenericArg>)
    ensures
        r@.len() == args@.len(),
        args_text(r@) == args_text_with(args@, ty_text(*self_ty)),
    decreases args,
{
    let mut out: Vec<GenericArg> = Vec::new();
    let mut i: usize = 0;
    while i < args.len()
        invariant
            0 <= i <= args@.len(),
            out@.len() == i,
            forall|k: int| 0 <= k < i ==> arg_text(#[trigger] out@[k]) == arg_text_with(args@[k], ty_text(*self_ty)),
        decreases args@.len() - i,
    {
        out.push(substitute_self_arg(&args[i], self_ty));
        i = i + 1;
    }
    proof {
        crate::ast::lemma_args_text_pointwise(out@, "Self"@, args@, ty_text(*self_ty));
    }
    out
}

fn substitute_self_arg(arg: &GenericArg, self_ty: &Ty) -> (r: GenericArg)
    ensures
        arg_text(r) == arg_text_with(*arg, ty_text(*self_ty)),
    decreases arg,
{
    match &arg.kind {
        GenericArgKind::Ty(t) => {
            let c = substitute_self(t, self_ty);
            let r = Node::new(arg.span, GenericArgKind::Ty(c));
            proof {
                assert(arg_text(r) == ty_text(c));
            }
            r
        },
        GenericArgKind::Const(e) => {
            let c = substitute_self_const(e, self_ty);
            let r = Node::new(arg.span, GenericArgKind::Const(c));
            proof {
                assert(arg_text(r) == const_text(c));
            }
            r
        },
    }
}

/// The constant expression with `Self` replaced inside associated
/// constants.
fn substitute_self_const(expr: &ConstExpr, self_ty: &Ty) -> (r: ConstExpr)
    ensures
        const_text(r) == const_text_with(*expr, ty_text(*self_ty)),
    decreases expr,
{
    let ghost st = ty_text(*self_ty);
    match &expr.kind {
        ConstExprKind::AssocConst { ty, interface, name } => {
            let t = substitute_self(ty, self_ty);
            let i = crate::ast::clone_path(interface);
            let r = Node::new(expr.span, ConstExprKind::AssocConst { ty: Box::new(t), interface: i, name: name.clone() });
            proof {
                assert(i.kind.segment_views() =~= interface.kind.segment_views());
                assert(const_text(r) == "<"@ + ty_text(t) + " as "@
                    + join_segments(i.kind.segment_views()) + ">::"@ + name@);
            }
            r
        },
        ConstExprKind::Unary { op, expr: inner } => {
            let c = substitute_self_const(inner, self_ty);
            let r = Node::new(expr.span, ConstExprKind::Unary { op: *op, expr: Box::new(c) });
            proof {
                assert(const_text_with(r, "Self"@) == const_text_with(*expr, st));
            }
            r
        },
        ConstExprKind::Binary { op, lhs, rhs } => {
            let l = substitute_self_const(lhs, self_ty);
            let rr = substitute_self_const(rhs, self_ty);
            let r = Node::new(expr.span, ConstExprKind::Binary { op: *op, lhs: Box::new(l), rhs: Box::new(rr) });
            proof {
                assert(const_text(r) == "("@ + const_text(l) + " "@ + const_binop_name(*op) + " "@ + const_text(rr) + ")"@);
            }
            r
        },
        ConstExprKind::Cast { expr: inner, ty } => {
            let c = substitute_self_const(inner, self_ty);
            let r = Node::new(expr.span, ConstExprKind::Cast { expr: Box::new(c), ty: *ty });
            proof {
                assert(const_text(r) == const_text(c) + " as "@ + int_ty_name(*ty));
            }
            r
        },
        _ => {
            let r = crate::ast::clone_const_expr(expr);
            proof {
                assert(const_text_with(r, "Self"@) == const_text_with(*expr, "Self"@));
            }
            r
        },
    }
}

/// How a type is written once each one-segment path without arguments
/// that names an entry of `substitutions` is replaced by that entry's type;
/// function types and constant expressions are left as they are.
pub open spec fn substituted_text(ty: Ty, substitutions: Seq<(String, Ty)>) -> Seq<char>
    decreases ty,
{
    match ty.kind {
        TyKind::Path { path, args } => {
            if path.kind.segments@.len() == 1 && args@.len() == 0 {
                match table_lookup(substitutions, path.kind.segments@[0]@) {
                    Some(t) => ty_text(t),
                    None => ty_text(ty),
                }
            } else if args@.len() == 0 {
                join_segments(path.kind.segment_views())
            } else {
                join_segments(path.kind.segment_views()) + "<"@ + substituted_args_text(args@, substitutions) + ">"@
            }
        },
        TyKind::Array { elem, len } => "["@ + substituted_text(*elem, substitutions) + "; "@ + const_text(len) + "]"@,
        TyKind::Ref { mutability, ty: inner } => match mutability {
            Mutability::Shared => "&"@ + substituted_text(*inner, substitutions),
            Mutability::Mutable => "&mut "@ + substituted_text(*inner, substitutions),
        },
        _ => ty_text(ty),
    }
}

/// Generic arguments written with the substitutions applied, separated by
/// `, `.
pub open spec fn substituted_args_text(args: Seq<GenericArg>, substitutions: Seq<(String, Ty)>) -> Seq<char>
    decreases args,
{
    if args.len() == 0 {
        Seq::empty()
    } else if args.len() == 1 {
        substituted_arg_text(args[0], substitutions)
    } else {
        substituted_args_text(args.subrange(0, args.len() - 1), substitutions) + ", "@
            + substituted_arg_text(args[args.len() - 1], substitutions)
    }
}

/// A generic argument written with the substitutions applied.
pub open spec fn substituted_arg_text(arg: GenericArg, substitutions: Seq<(String, Ty)>) -> Seq<char>
    decreases arg,
{
    match arg.kind {
        GenericArgKind::Ty(t) => substituted_text(t, substitutions),
        GenericArgKind::Const(e) => const_text(e),
    }
}

/// An argument list written item by item as the substitution says is
/// written as it says.
proof fn lemma_substituted_args_pointwise(out: Seq<GenericArg>, args: Seq<GenericArg>, substitutions: Seq<(String, Ty)>)
    requires
        out.len() == args.len(),
        forall|k: int| 0 <= k < out.len() ==> arg_text(#[trigger] out[k]) == substituted_arg_text(args[k], substitutions),
    ensures
        args_text(out) == substituted_args_text(args, substitutions),
    decreases out.len(),
{
    if out.len() > 1 {
        let o1 = out.subrange(0, out.len() - 1);
        let a1 = args.subrange(0, args.len() - 1);
        assert forall|k: int| 0 <= k < o1.len() implies arg_text(#[trigger] o1[k]) == substituted_arg_text(a1[k], substitutions) by {
            assert(o1[k] == out[k] && a1[k] == args[k]);
        }
        lemma_substituted_args_pointwise(o1, a1, substitutions);
    }
}

/// The type with generic parameter names replaced by their arguments.
fn apply_type_substitutions(ty: &Ty, substitutions: &Vec<(String, Ty)>) -> (r: Ty)
    ensures
        ty_text(r) == substituted_text(*ty, substitutions@),
    decreases ty,
{
    match &ty.kind {
        TyKind::Path { path, args } => {
            if path.kind.segments.len() == 1 && args.len() == 0 {
                match locals_get(substitutions, path.kind.segments[0].as_str()) {
                    Some(t) => crate::ast::clone_ty(t),
                    None => crate::ast::clone_ty(ty),
                }
            } else {
                let p = crate::ast::clone_path(path);
                let a = apply_to_args(args, substitutions);
                let r = Node::new(ty.span, TyKind::Path { path: p, args: a });
                proof {
                    assert(p.kind.segment_views() =~= path.kind.segment_views());
                }
                r
            }
        },
        TyKind::Array { elem, len } => {
            let e = apply_type_substitutions(elem, substitutions);
            let l = crate::ast::clone_const_expr(len);
            let r = Node::new(ty.span, TyKind::Array { elem: Box::new(e), len: l });
            proof {
                assert(ty_text(r) == "["@ + ty_text(e) + "; "@ + const_text(l) + "]"@);
            }
            r
        },
        TyKind::Ref { mutability, ty: inner } => {
            let i = apply_type_substitutions(inner, substitutions);
            let r = Node::new(ty.span, TyKind::Ref { mutability: *mutability, ty: Box::new(i) });
            proof {
                assert(ty_text(r) == substituted_text(*ty, substitutions@));
            }
            r
        },
        _ => crate::ast::clone_ty(ty),
    }
}

fn apply_to_args(args: &Vec<GenericArg>, substitutions: &Vec<(String, Ty)>) -> (r: Vec<GenericArg>)
    ensures
        r@.len() == args@.len(),
        args_text(r@) == substituted_args_text(args@, substitutions@),
    decreases args,
{
    let mut out: Vec<GenericArg> = Vec::new();
    let mut i: usize = 0;
    while i < args.len()
        invariant
            0 <= i <= args@.len(),
            out@.len() == i,
            forall|k: int| 0 <= k < i ==> arg_text(#[trigger] out@[k]) == substituted_arg_text(args@[k], substitutions@),
        decreases args@.len() - i,
    {
        out.push(apply_to_arg(&args[i], substitutions));
        i = i + 1;
    }
    proof {
        lemma_substituted_args_pointwise(out@, args@, substitutions@);
    }
    out
}

fn apply_to_arg(arg: &GenericArg, substitutions: &Vec<(String, Ty)>) -> (r: GenericArg)
    ensures
        arg_text(r) == substituted_arg_text(*arg, substitutions@),
    decreases arg,
{
    match &arg.kind {
        GenericArgKind::Ty(t) => {
            let c = apply_type_substitutions(t, substitutions);
            let r = Node::new(arg.span, GenericArgKind::Ty(c));
            proof {
                assert(arg_text(r) == ty_text(c));
            }
            r
        },
        GenericArgKind::Const(e) => {
            let c = crate::ast::clone_const_expr(e);
            let r = Node::new(arg.span, GenericArgKind::Const(c));
            proof {
                assert(arg_text(r) == const_text(c));
            }
            r
        },
    }
}

/// The type argument that the substitution of generic arguments gives the
/// type parameter `n`: the one at the last of the first `i` positions where
/// a type parameter named `n` meets a type argument.
pub open spec fn subst_arg(generics: Seq<GenericParam>, args: Seq<GenericArg>, i: int, n: Seq<char>) -> Option<Ty>
    decreases i,
{
    if i <= 0 {
        None
    } else if (generics[i - 1].kind matches GenericParamKind::Type { name, .. } && name@ == n) && args[i - 1].kind is Ty {
        Some(args[i - 1].kind->Ty_0)
    } else {
        subst_arg(generics, args, i - 1, n)
    }
}

/// Whether the table gives each name what `expected` gives it, up to how
/// the types are written.
pub open spec fn subst_table_is(table: Seq<(String, Ty)>, expected: spec_fn(Seq<char>) -> Option<Ty>) -> bool {
    forall|n: Seq<char>| match #[trigger] expected(n) {
        Some(t) => table_lookup(table, n) matches Some(u) && u.span == t.span
            && forall|s: Seq<char>| ty_text_with(u, s) == ty_text_with(t, s),
        None => table_lookup(table, n) is None,
    }
}

/// The type arguments given to each type parameter, in order.
fn generic_arg_substitutions(generics: &Vec<GenericParam>, args: &Vec<GenericArg>) -> (r: Vec<(String, Ty)>)
    ensures
        ({
            let m = if generics@.len() < args@.len() { generics@.len() as int } else { args@.len() as int };
            subst_table_is(r@, |n: Seq<char>| subst_arg(generics@, args@, m, n))
        }),
{
    let mut substitutions: Vec<(String, Ty)> = Vec::new();
    let mut i: usize = 0;
    while i < generics.len() && i < args.len()
        invariant
            0 <= i <= generics@.len(),
            i <= args@.len(),
            subst_table_is(substitutions@, |n: Seq<char>| subst_arg(generics@, args@, i as int, n)),
        decreases generics@.len() - i,
    {
        let ghost before = substitutions@;
        if let GenericParamKind::Type { name, .. } = &generics[i].kind {
            if let GenericArgKind::Ty(t) = &args[i].kind {
                locals_insert(&mut substitutions, name, crate::ast::clone_ty(t));
                proof {
                    assert forall|n: Seq<char>| n != name@ implies #[trigger] subst_arg(generics@, args@, i + 1, n)
                        == subst_arg(generics@, args@, i as int, n) by {}
                }
            } else {
                assert forall|n: Seq<char>| #[trigger] subst_arg(generics@, args@, i + 1, n)
                    == subst_arg(generics@, args@, i as int, n) by {}
            }
        } else {
            assert forall|n: Seq<char>| #[trigger] subst_arg(generics@, args@, i + 1, n)
                == subst_arg(generics@, args@, i as int, n) by {}
        }
        proof {
            let f = |n: Seq<char>| subst_arg(generics@, args@, i + 1, n);
            assert forall|n: Seq<char>| match #[trigger] f(n) {
                Some(t) => table_lookup(substitutions@, n) matches Some(u) && u.span == t.span
                    && forall|s: Seq<char>| ty_text_with(u, s) == ty_text_with(t, s),
                None => table_lookup(substitutions@, n) is None,
            } by {
                assert(subst_table_is(before, |n: Seq<char>| subst_arg(generics@, args@, i as int, n)));
                let g = |n: Seq<char>| subst_arg(generics@, args@, i as int, n);
                assert(match g(n) {
                    Some(t) => table_lookup(before, n) matches Some(u) && u.span == t.span
                        && forall|s: Seq<char>| ty_text_with(u, s) == ty_text_with(t, s),
                    None => table_lookup(before, n) is None,
                });
            }
        }
        i = i + 1;
    }
    substitutions
}

/// The interface reference an interface item stands for inside itself: its
/// own name applied to its own generic parameters.
fn current_interface_ref(item: &InterfaceItem) -> (r: InterfaceRef)
    ensures
        r.span == item.span,
        ref_name(r) == item.kind.name@,
{
    let mut args: Vec<GenericArg> = Vec::new();
    let mut i: usize = 0;
    while i < item.kind.generics.len()
        invariant
            0 <= i <= item.kind.generics@.len(),
        decreases item.kind.generics@.len() - i,
    {
        let generic = &item.kind.generics[i];
        match &generic.kind {
            GenericParamKind::Type { name, .. } => {
                let ty = param_ty(generic.span, name);
                args.push(Node::new(generic.span, GenericArgKind::Ty(ty)));
            },
            GenericParamKind::Const { name, .. } => {
                args.push(Node::new(generic.span, GenericArgKind::Const(Node::new(generic.span, ConstExprKind::Param(name.clone())))));
            },
        }
        i = i + 1;
    }
    let r = Node::new(item.span, InterfaceRefKind { path: synthetic_path(item.kind.name.clone()), args });
    proof {
        assert(r.kind.path.kind.segment_views() =~= seq![item.kind.name@]);
    }
    r
}

/// Whether two optional receivers have the same kind.
fn receivers_match(a: &Option<crate::ast::Receiver>, b: &Option<crate::ast::Receiver>) -> (r: bool)
    ensures
        r == match (*a, *b) {
            (Some(x), Some(y)) => x.kind == y.kind,
            (None, None) => true,
            _ => false,
        },
{
    match (a, b) {
        (Some(x), Some(y)) => x.kind == y.kind,
        (None, None) => true,
        _ => false,
    }
}


impl<'a> Checker<'a> {
    fn check(&mut self, program: &'a Program)
        requires
            old(self).structs@.len() == 0,
            old(self).enums@.len() == 0,
            old(self).interfaces@.len() == 0,
            old(self).fns@.len() == 0,
            old(self).const_items@.len() == 0,
            old(self).errors@.len() == 0,
            old(self).const_values@.len() == 0,
            old(self).evaluating_consts@.len() == 0,
            old(self).impls@.len() == 0,
        ensures
            errors_kept(old(self).errors@, final(self).errors@),
            overflows_reported(program.kind.items@, final(self).errors@),
            interface_params_rejected(program.kind.items@, final(self).errors@),
            inheritance_cycles_reported(program.kind.items@, final(self).errors@),
            missing_methods_rejected(program.kind.items@, final(self).errors@),
            const_predicates_rejected(program.kind.items@, final(self).errors@),
            impl_conflicts_rejected(program.kind.items@, final(self).errors@),
            first_constant_reported_first(program.kind.items@, final(self).errors@),
            ({
                let declared = collection_errors(program.kind.items@, program.kind.items@.len() as int);
                errors_view(final(self).errors@).len() >= declared.len()
                    && errors_view(final(self).errors@).subrange(0, declared.len() as int) == declared
            }),
            fitting_constants_only(program.kind.items@) ==> errors_view(final(self).errors@)
                == collection_errors(program.kind.items@, program.kind.items@.len() as int),
            fn_matches_rejected(program.kind.items@, final(self).errors@),
            enum_duplicates_rejected(program.kind.items@, final(self).errors@),
    {
        self.collect_items(program);
        // The declaration errors lead the report; the later passes add
        // theirs after them.
        let mut declared: Vec<(Span, String)> = Vec::new();
        std::mem::swap(&mut declared, &mut self.errors);
        let ghost collected = errors_view(declared@);
        let ghost items = program.kind.items@;
        proof {
            assert(evaluation_clear(*self));
            assert(cache_sound(*self));
        }
        let ghost table = self.const_items@;
        let ghost fns = self.fns@;
        let ghost enums = self.enums@;
        let ghost interfaces = self.interfaces@;
        proof {
            if fitting_constants_only(items) {
                assert forall|n: Seq<char>| #[trigger] table_lookup(table, n) is Some implies
                    closed_const(table_lookup(table, n)->0.kind.expr)
                        && fitting_value(const_value(table_lookup(table, n)->0.kind.expr), table_lookup(table, n)->0.kind.ty) is Some by {
                    if let Some(j) = last_const_index(items, items.len() as int, n) {
                        lemma_last_const_index(items, items.len() as int, n);
                        assert(items[j].kind matches ItemKind::Const(c));
                    }
                }
            }
            assert(self.errors@.len() == 0);
            assert(self.const_values@.len() == 0);
            assert(self.evaluating_consts@.len() == 0);
        }
        self.evaluate_all_consts();
        let ghost evaluated = self.errors@;
        self.check_structs();
        let ghost before_enums = self.errors@;
        self.check_enums();
        let ghost after_enums = self.errors@;
        proof {
            assert(self.interfaces@.len() == self.interfaces.len());
        }
        self.check_interfaces();
        let ghost after_interfaces = self.errors@;
        let ghost impls = self.impls@;
        self.check_impls();
        let ghost after_impls = self.errors@;
        self.check_impl_conflicts();
        let ghost checked = self.errors@;
        proof {
            assert(self.impls@ == impls);
        }
        proof {
            assert(evaluation_clear(*self) && cache_sound(*self));
            assert(self.const_items@ == table);
        }
        self.check_fns();
        let ghost before = declared@;
        let ghost later = self.errors@;
        declared.append(&mut self.errors);
        proof {
            assert(errors_view(declared@) =~= errors_view(before) + errors_view(later));
            assert(errors_view(declared@).subrange(0, collected.len() as int) =~= collected);
            assert(declared@ == before + later);
            assert forall|j: int| 0 <= j < items.len() implies ((#[trigger] items[j]).kind matches ItemKind::Const(c)
                ==> ((last_const_index(items, items.len() as int, c.kind.name@) == Some(j) && overflowing_const(c))
                    ==> reported(declared@, const_fit_error(c.kind.name@, c)))) by {
                if let ItemKind::Const(c) = items[j].kind {
                    if last_const_index(items, items.len() as int, c.kind.name@) == Some(j) && overflowing_const(c) {
                        assert(table_lookup(table, c.kind.name@) matches Some(t) && items[j].kind == ItemKind::Const(*t));
                        assert(reported(evaluated, const_fit_error(c.kind.name@, c)));
                        lemma_reported_kept(evaluated, later, const_fit_error(c.kind.name@, c));
                        lemma_reported_append(before, later, const_fit_error(c.kind.name@, c));
                    }
                }
            }
            assert forall|w: Seq<Seq<char>>| w.len() >= 2 && #[trigger] inheritance_walk(items, w) && w[0] == w.last()
                implies cycle_reported(declared@, w[0]) by {
                assert forall|i: int| 0 <= i < w.len() - 1 implies #[trigger] inherits(interfaces, w[i], w[i + 1]) by {
                    assert(program_inherits(items, w[i], w[i + 1]));
                    let j = last_interface_index(items, items.len() as int, w[i])->0;
                    assert(table_lookup(interfaces, w[i]) matches Some(f) && items[j].kind == ItemKind::Interface(*f));
                }
                let q = lemma_simple_cycle(interfaces, w);
                let name = w[0];
                lemma_inherits_step(interfaces, q, 0);
                lemma_lookup_entry(interfaces, name);
                let t = choose|t: int| 0 <= t < interfaces.len() && #[trigger] interfaces[t].0@ == name
                    && interfaces[t].1 == table_lookup(interfaces, name)->0;
                lemma_last_interface_index(items, items.len() as int, name);
                assert(interfaces[t].1.kind.name@ == name);
                assert(open_paths_reported(interfaces, Seq::empty(), interfaces[t].1.kind.name@, EVAL_FUEL as int, after_interfaces));
                assert forall|i: int| 0 <= i < q.drop_last().len() implies table_has(interfaces, #[trigger] q.drop_last()[i]) by {
                    lemma_inherits_step(interfaces, q, i);
                    lemma_lookup_has(interfaces, q[i]);
                }
                lemma_distinct_names_bound(interfaces, q.drop_last());
                assert(q.drop_last()[0] == q.last());
                assert(open_path(interfaces, Seq::empty(), q));
                assert(cycle_reported(after_interfaces, q.last()));
                let k = choose|k: int| 0 <= k < after_interfaces.len() && after_interfaces[k].1@ == cycle_message(name);
                assert(later[k] == after_interfaces[k]);
                assert(declared@[before.len() + k] == later[k]);
            }
            assert forall|j: int| 0 <= j < items.len() implies ((#[trigger] items[j]).kind matches ItemKind::Impl(im)
                ==> (im.kind.interface matches Some(iref)
                    ==> (last_interface_index(items, items.len() as int, ref_name(iref)) matches Some(x)
                        ==> (items[x].kind matches ItemKind::Interface(it) ==> forall|m: int| 0 <= m < it.kind.members@.len()
                            ==> ((#[trigger] it.kind.members@[m]).kind matches InterfaceMemberKind::Method(sig)
                                ==> (!impl_has_method(im, sig.kind.name@)
                                    ==> reported(declared@, missing_method_error(im, ref_name(iref), sig.kind.name@)))))))) by {
                if let ItemKind::Impl(im) = items[j].kind {
                    if let Some(iref) = im.kind.interface {
                        if let Some(x) = last_interface_index(items, items.len() as int, ref_name(iref)) {
                            if let ItemKind::Interface(it) = items[x].kind {
                                let k = choose|k: int| 0 <= k < impls.len() && *impls[k] == im;
                                assert(impl_methods_reported(*impls[k], interfaces, after_impls));
                                assert(table_lookup(interfaces, ref_name(iref)) matches Some(f) && items[x].kind == ItemKind::Interface(*f));
                                assert forall|m: int| 0 <= m < it.kind.members@.len() implies ((#[trigger] it.kind.members@[m]).kind matches InterfaceMemberKind::Method(sig)
                                    ==> (!impl_has_method(im, sig.kind.name@)
                                        ==> reported(declared@, missing_method_error(im, ref_name(iref), sig.kind.name@)))) by {
                                    if let InterfaceMemberKind::Method(sig) = it.kind.members@[m].kind {
                                        if !impl_has_method(im, sig.kind.name@) {
                                            let e = missing_method_error(im, ref_name(iref), sig.kind.name@);
                                            assert(reported(after_impls, e));
                                            lemma_reported_kept(after_impls, later, e);
                                            lemma_reported_append(before, later, e);
                                        }
                                    }
                                }
                            }
                        }
                    }
                }
            }
            if collection_errors(items, items.len() as int).len() == 0 {
                assert forall|j: int| 0 <= j < items.len()
                    && ((#[trigger] items[j]).kind matches ItemKind::Const(c)
                        && last_const_index(items, items.len() as int, c.kind.name@) == Some(j)
                        && closed_const(c.kind.expr) && first_const_name(items, c.kind.name@))
                    implies ({
                        let first = first_evaluation_errors(items[j].kind->Const_0.kind.name@, items[j].kind->Const_0);
                        &&& declared@.len() >= first.len()
                        &&& errors_view(declared@).subrange(0, first.len() as int) == first
                    }) by {
                    let c = items[j].kind->Const_0;
                    let n = c.kind.name@;
                    assert(table_lookup(table, n) matches Some(t) && items[j].kind == ItemKind::Const(*t));
                    assert forall|k: int| 0 <= k < table.len() && #[trigger] table[k].0@ != n implies chars_lt(n, table[k].0@) by {
                        let m = table[k].0@;
                        lemma_lookup_has(table, m);
                        assert(table_lookup(table, m) is Some);
                        lemma_last_const_index(items, items.len() as int, m);
                        let i = last_const_index(items, items.len() as int, m)->0;
                        assert(items[i].kind matches ItemKind::Const(d) && d.kind.name@ == m);
                    }
                    assert(first_name(table, n));
                    let first = first_evaluation_errors(n, c);
                    assert(errors_view(evaluated).subrange(0, first.len() as int) == first);
                    assert(before.len() == 0);
                    assert(declared@ =~= later);
                    assert(errors_view(later).subrange(0, first.len() as int) =~= errors_view(evaluated).subrange(0, first.len() as int));
                }
            }
            assert forall|j1: int, j2: int| 0 <= j1 < items.len() && 0 <= j2 < items.len()
                && ((#[trigger] items[j1]).kind matches ItemKind::Impl(a) && ((#[trigger] items[j2]).kind matches ItemKind::Impl(b)
                    && a != b && a.kind.interface is Some && b.kind.interface is Some
                    && ref_name(a.kind.interface->0) == ref_name(b.kind.interface->0)
                    && (same_primitive(a.kind.self_ty, b.kind.self_ty) || same_nominal(a.kind.self_ty, b.kind.self_ty))))
                implies exists|k: int| 0 <= k < declared@.len() && declared@[k].1@ == conflicting_impl_message(items[j1].kind->Impl_0) by {
                let a = items[j1].kind->Impl_0;
                let b = items[j2].kind->Impl_0;
                let ka = choose|k: int| 0 <= k < impls.len() && *impls[k] == a;
                let kb = choose|k: int| 0 <= k < impls.len() && *impls[k] == b;
                assert(ka != kb);
                assert(ty_text(a.kind.self_ty) == ty_text(b.kind.self_ty));
                let (x, y) = if ka < kb { (ka, kb) } else { (kb, ka) };
                assert(impl_conflict_reported(*impls[x], *impls[y], checked));
                let e = (impls[y].span, "conflicting impl of `"@ + ref_name(impls[x].kind.interface->0) + "` for `"@
                    + ty_text(impls[y].kind.self_ty) + "`"@);
                assert(reported(checked, e));
                lemma_reported_kept(checked, later, e);
                lemma_reported_append(before, later, e);
                let k = choose|k: int| 0 <= k < declared@.len() && (declared@[k].0, declared@[k].1@) == e;
                assert(declared@[k].1@ == conflicting_impl_message(a));
            }
            assert forall|t2: Seq<(String, &ConstItem)>, j: int| #[trigger] const_table_of(t2, items, items.len() as int)
                && 0 <= j < items.len() && ((#[trigger] items[j]).kind matches ItemKind::Fn(f)
                    && last_fn_index(items, items.len() as int, f.kind.name@) == Some(j))
                implies fn_const_predicates_reported(items[j].kind->Fn_0, t2, declared@) by {
                let f = items[j].kind->Fn_0;
                lemma_lookup_entry(fns, f.kind.name@);
                let t = choose|t: int| 0 <= t < fns.len() && #[trigger] fns[t].0@ == f.kind.name@
                    && fns[t].1 == table_lookup(fns, f.kind.name@)->0;
                assert(fn_const_predicates_reported(*fns[t].1, table, later));
                lemma_const_tables_agree(table, t2, items, items.len() as int);
                lemma_fn_const_predicates_tables(f, table, t2, later);
                lemma_fn_const_predicates_append(f, t2, before, later);
            }
            let in_table = |n: Seq<char>| table_has(interfaces, n);
            let in_program = |n: Seq<char>| declares_interface(items, n);
            assert(in_table =~= in_program);
            assert forall|j: int| 0 <= j < items.len() implies ((#[trigger] items[j]).kind matches ItemKind::Fn(f)
                ==> (last_fn_index(items, items.len() as int, f.kind.name@) == Some(j)
                    ==> interface_params_reported(f, in_program, declared@))) by {
                if let ItemKind::Fn(f) = items[j].kind {
                    if last_fn_index(items, items.len() as int, f.kind.name@) == Some(j) {
                        lemma_lookup_entry(fns, f.kind.name@);
                        let t = choose|t: int| 0 <= t < fns.len() && #[trigger] fns[t].0@ == f.kind.name@
                            && fns[t].1 == table_lookup(fns, f.kind.name@)->0;
                        assert(interface_params_reported(*fns[t].1, in_table, later));
                        lemma_interface_params_append(f, in_program, before, later);
                    }
                }
            }
            assert forall|etable: Seq<(String, &EnumItem)>, j: int| #[trigger] enum_table_of(etable, items, items.len() as int)
                && 0 <= j < items.len() && ((#[trigger] items[j]).kind matches ItemKind::Fn(f)
                    && last_fn_index(items, items.len() as int, f.kind.name@) == Some(j))
                implies fn_match_reported(etable, items[j].kind->Fn_0, declared@) by {
                let f = items[j].kind->Fn_0;
                lemma_lookup_entry(fns, f.kind.name@);
                let t = choose|t: int| 0 <= t < fns.len() && #[trigger] fns[t].0@ == f.kind.name@
                    && fns[t].1 == table_lookup(fns, f.kind.name@)->0;
                assert(fn_match_reported(enums, *fns[t].1, later));
                assert forall|n: Seq<char>| #[trigger] table_lookup(enums, n) == table_lookup(etable, n) by {
                    lemma_enum_tables_agree(enums, etable, items, n);
                }
                lemma_fn_match_moved(enums, etable, f, before, later);
            }
            assert forall|j: int| 0 <= j < items.len() && ((#[trigger] items[j]).kind matches ItemKind::Enum(e)
                && last_enum_index(items, items.len() as int, e.kind.name@) == Some(j))
                implies enum_variants_reported(items[j].kind->Enum_0, declared@) by {
                let e = items[j].kind->Enum_0;
                assert(table_lookup(enums, e.kind.name@) matches Some(g) && items[j].kind == ItemKind::Enum(*g));
                lemma_lookup_entry(enums, e.kind.name@);
                let t = choose|t: int| 0 <= t < enums.len() && #[trigger] enums[t].0@ == e.kind.name@
                    && enums[t].1 == table_lookup(enums, e.kind.name@)->0;
                assert(enum_variants_reported(*enums[t].1, after_enums));
                lemma_enum_variants_kept(e, after_enums, later);
                lemma_enum_variants_append(e, before, later);
            }
        }
        self.errors = declared;
    }

    /// Fills the name tables from the program's items, reporting each item
    /// that declares a name already declared in the same name space.
    fn collect_items(&mut self, program: &'a Program)
        requires
            old(self).structs@.len() == 0,
            old(self).enums@.len() == 0,
            old(self).interfaces@.len() == 0,
            old(self).fns@.len() == 0,
            old(self).const_items@.len() == 0,
            old(self).impls@.len() == 0,
        ensures
            errors_kept(old(self).errors@, final(self).errors@),
            errors_view(final(self).errors@) == errors_view(old(self).errors@)
                + collection_errors(program.kind.items@, program.kind.items@.len() as int),
            fitting_constants_only(program.kind.items@) ==> final(self).structs@.len() == 0 && final(self).enums@.len() == 0
                && final(self).interfaces@.len() == 0 && final(self).fns@.len() == 0 && final(self).impls@.len() == 0,
            const_table_of(final(self).const_items@, program.kind.items@, program.kind.items@.len() as int),
            fn_table_of(final(self).fns@, program.kind.items@, program.kind.items@.len() as int),
            enum_table_of(final(self).enums@, program.kind.items@, program.kind.items@.len() as int),
            interface_table_of(final(self).interfaces@, program.kind.items@, program.kind.items@.len() as int),
            forall|j: int| 0 <= j < program.kind.items@.len() ==> ((#[trigger] program.kind.items@[j]).kind matches ItemKind::Impl(im)
                ==> exists|k: int| 0 <= k < final(self).impls@.len() && *final(self).impls@[k] == im),
            forall|n: Seq<char>| #[trigger] table_has(final(self).interfaces@, n)
                <==> declares_interface(program.kind.items@, n),
            final(self).const_values == old(self).const_values,
            final(self).evaluating_consts == old(self).evaluating_consts,
    {
        let ghost items = program.kind.items@;
        let mut type_names: Vec<String> = Vec::new();
        let mut i: usize = 0;
        while i < program.kind.items.len()
            invariant
                errors_kept(old(self).errors@, self.errors@),
                0 <= i <= program.kind.items@.len(),
                items == program.kind.items@,
                forall|n: Seq<char>| table_has(self.const_items@, n) <==> declared_before(items, i as int, 0, n),
                forall|n: Seq<char>| has_name(type_names@, n) <==> declared_before(items, i as int, 1, n),
                forall|n: Seq<char>| table_has(self.interfaces@, n) <==> declared_before(items, i as int, 2, n),
                forall|n: Seq<char>| table_has(self.fns@, n) <==> declared_before(items, i as int, 3, n),
                errors_view(self.errors@) == errors_view(old(self).errors@) + collection_errors(items, i as int),
                const_table_of(self.const_items@, items, i as int),
                fn_table_of(self.fns@, items, i as int),
                enum_table_of(self.enums@, items, i as int),
                interface_table_of(self.interfaces@, items, i as int),
                forall|j: int| 0 <= j < i ==> ((#[trigger] items[j]).kind matches ItemKind::Impl(im)
                    ==> exists|k: int| 0 <= k < self.impls@.len() && *self.impls@[k] == im),
                self.const_values == old(self).const_values,
                self.evaluating_consts == old(self).evaluating_consts,
                fitting_constants_only(items) ==> self.structs@.len() == 0 && self.enums@.len() == 0
                    && self.interfaces@.len() == 0 && self.fns@.len() == 0 && self.impls@.len() == 0,
            decreases program.kind.items@.len() - i,
        {
            let ghost before = self.errors@;
            let ghost consts0 = self.const_items@;
            let ghost types0 = type_names@;
            let ghost interfaces0 = self.interfaces@;
            let ghost fns0 = self.fns@;
            let ghost enums0 = self.enums@;
            let ghost impls_start = self.impls@;
            match &program.kind.items[i].kind {
                ItemKind::Use(_) => {},
                ItemKind::Const(item) => {
                    let found = table_get(&self.const_items, item.kind.name.as_str());
                    proof {
                        lemma_lookup_has(self.const_items@, item.kind.name@);
                    }
                    if found.is_some() {
                        self.error(item.span, cat3("duplicate const `", item.kind.name.as_str(), "`"));
                        proof {
                            assert(self.errors@.drop_last() =~= before);
                        }
                    }
                    table_insert(&mut self.const_items, &item.kind.name, item);
                    proof {
                        assert forall|n: Seq<char>| match #[trigger] last_const_index(items, i as int + 1, n) {
                            Some(j) => table_lookup(self.const_items@, n) matches Some(c) && items[j].kind == ItemKind::Const(*c),
                            None => table_lookup(self.const_items@, n) is None,
                        } by {
                            if n != item.kind.name@ {
                                assert(last_const_index(items, i as int + 1, n) == last_const_index(items, i as int, n));
                            }
                        }
                    }
                },
                ItemKind::Struct(item) => {
                    if !insert_name(&mut type_names, &item.kind.name) {
                        self.error(item.span, cat3("duplicate type `", item.kind.name.as_str(), "`"));
                        proof {
                            assert(self.errors@.drop_last() =~= before);
                        }
                    }
                    table_insert(&mut self.structs, &item.kind.name, item);
                },
                ItemKind::Enum(item) => {
                    if !insert_name(&mut type_names, &item.kind.name) {
                        self.error(item.span, cat3("duplicate type `", item.kind.name.as_str(), "`"));
                        proof {
                            assert(self.errors@.drop_last() =~= before);
                        }
                    }
                    table_insert(&mut self.enums, &item.kind.name, item);
                    proof {
                        assert forall|n: Seq<char>| match #[trigger] last_enum_index(items, i as int + 1, n) {
                            Some(j) => table_lookup(self.enums@, n) matches Some(e) && items[j].kind == ItemKind::Enum(*e),
                            None => table_lookup(self.enums@, n) is None,
                        } by {
                            if n != item.kind.name@ {
                                assert(last_enum_index(items, i as int + 1, n) == last_enum_index(items, i as int, n));
                            }
                        }
                    }
                },
                ItemKind::Interface(item) => {
                    if table_insert(&mut self.interfaces, &item.kind.name, item) {
                        self.error(item.span, cat3("duplicate interface `", item.kind.name.as_str(), "`"));
                        proof {
                            assert(self.errors@.drop_last() =~= before);
                        }
                    }
                    proof {
                        assert forall|n: Seq<char>| match #[trigger] last_interface_index(items, i as int + 1, n) {
                            Some(j) => table_lookup(self.interfaces@, n) matches Some(f) && items[j].kind == ItemKind::Interface(*f),
                            None => table_lookup(self.interfaces@, n) is None,
                        } by {
                            if n != item.kind.name@ {
                                assert(last_interface_index(items, i as int + 1, n) == last_interface_index(items, i as int, n));
                            }
                        }
                    }
                },
                ItemKind::Impl(item) => {
                    let ghost impls0 = self.impls@;
                    self.impls.push(item);
                    proof {
                        assert(*self.impls@[impls0.len() as int] == *item);
                        assert forall|j: int| 0 <= j < i + 1 implies ((#[trigger] items[j]).kind matches ItemKind::Impl(im)
                            ==> exists|k: int| 0 <= k < self.impls@.len() && *self.impls@[k] == im) by {
                            if let ItemKind::Impl(im) = items[j].kind {
                                if j < i {
                                    let k = choose|k: int| 0 <= k < impls0.len() && *impls0[k] == im;
                                    assert(self.impls@[k] == impls0[k]);
                                } else {
                                    assert(*self.impls@[impls0.len() as int] == im);
                                }
                            }
                        }
                    }
                },
                ItemKind::Fn(item) => {
                    if table_insert(&mut self.fns, &item.kind.name, item) {
                        self.error(item.span, cat3("duplicate function `", item.kind.name.as_str(), "`"));
                        proof {
                            assert(self.errors@.drop_last() =~= before);
                        }
                    }
                    proof {
                        assert forall|n: Seq<char>| match #[trigger] last_fn_index(items, i as int + 1, n) {
                            Some(j) => table_lookup(self.fns@, n) matches Some(f) && items[j].kind == ItemKind::Fn(*f),
                            None => table_lookup(self.fns@, n) is None,
                        } by {
                            if n != item.kind.name@ {
                                assert(last_fn_index(items, i as int + 1, n) == last_fn_index(items, i as int, n));
                            }
                        }
                    }
                },
            }
            proof {
                if !(items[i as int].kind is Const) {
                    assert forall|n: Seq<char>| #[trigger] last_const_index(items, i as int + 1, n)
                        == last_const_index(items, i as int, n) by {}
                }
                if !(items[i as int].kind is Impl) {
                    assert(self.impls@ == impls_start);
                    assert forall|j: int| 0 <= j < i + 1 implies ((#[trigger] items[j]).kind matches ItemKind::Impl(im)
                        ==> exists|k: int| 0 <= k < self.impls@.len() && *self.impls@[k] == im) by {
                        if let ItemKind::Impl(im) = items[j].kind {
                            if j < i {
                                let k = choose|k: int| 0 <= k < impls_start.len() && *impls_start[k] == im;
                                assert(*self.impls@[k] == im);
                            }
                        }
                    }
                }
                if !(items[i as int].kind is Interface) {
                    assert forall|n: Seq<char>| #[trigger] last_interface_index(items, i as int + 1, n)
                        == last_interface_index(items, i as int, n) by {}
                    assert(self.interfaces@ == interfaces0);
                }
                if !(items[i as int].kind is Fn) {
                    assert forall|n: Seq<char>| #[trigger] last_fn_index(items, i as int + 1, n)
                        == last_fn_index(items, i as int, n) by {}
                    assert(self.fns@ == fns0);
                }
                if !(items[i as int].kind is Enum) {
                    assert forall|n: Seq<char>| #[trigger] last_enum_index(items, i as int + 1, n)
                        == last_enum_index(items, i as int, n) by {}
                    assert(self.enums@ == enums0);
                }
                reveal_strlit("`");
                lemma_declared_extend(items, i as int, 0, consts0, self.const_items@);
                lemma_declared_extend_names(items, i as int, 1, types0, type_names@);
                lemma_declared_extend(items, i as int, 2, interfaces0, self.interfaces@);
                lemma_declared_extend(items, i as int, 3, fns0, self.fns@);
                lemma_collection_step(items, i as int, before, self.errors@, old(self).errors@,
                    declared_before(items, i as int, item_space(items[i as int]), item_declared_name(items[i as int])));
            }
            i = i + 1;
        }
    }

    /// Evaluates every constant, in name order; each constant whose value
    /// does not fit its type is reported.
    fn evaluate_all_consts(&mut self)
        ensures
            errors_kept(old(self).errors@, final(self).errors@),
            (evaluation_clear(*old(self)) && cache_sound(*old(self)) && forall|n: Seq<char>|
                #[trigger] table_lookup(old(self).const_items@, n) matches Some(item)
                    ==> (closed_const(item.kind.expr) && fitting_value(const_value(item.kind.expr), item.kind.ty) is Some))
                ==> final(self).errors@ == old(self).errors@,
            state_kept(*old(self), *final(self)),
            (evaluation_clear(*old(self)) && cache_sound(*old(self))) ==> forall|n: Seq<char>|
                #[trigger] table_lookup(old(self).const_items@, n) matches Some(item)
                    ==> (overflowing_const(*item) ==> reported(final(self).errors@, const_fit_error(n, *item))),
            (old(self).const_values@.len() == 0 && old(self).evaluating_consts@.len() == 0) ==> forall|n: Seq<char>|
                (#[trigger] first_name(old(self).const_items@, n) && table_lookup(old(self).const_items@, n) is Some
                    && closed_const(table_lookup(old(self).const_items@, n)->0.kind.expr))
                ==> ({
                    let first = first_evaluation_errors(n, *table_lookup(old(self).const_items@, n)->0);
                    &&& final(self).errors@.len() >= old(self).errors@.len() + first.len()
                    &&& errors_view(final(self).errors@).subrange(old(self).errors@.len() as int,
                        (old(self).errors@.len() + first.len()) as int) == first
                }),
    {
        let order = sorted_order(&self.const_items);
        let mut names: Vec<String> = Vec::new();
        let mut i: usize = 0;
        while i < order.len()
            invariant
                errors_kept(old(self).errors@, self.errors@),
                state_kept(*old(self), *self),
                *self == *old(self),
                0 <= i <= order@.len(),
                order@.len() == self.const_items@.len(),
                forall|k: int| 0 <= k < order@.len() ==> order@[k] < self.const_items@.len(),
                names@.len() == i,
                forall|k: int| 0 <= k < i ==> (#[trigger] names@[k])@ == self.const_items@[order@[k] as int].0@,
            decreases order@.len() - i,
        {
            names.push(self.const_items[order[i]].0.clone());
            i = i + 1;
        }
        let ghost start = *self;
        let ghost quiet = evaluation_clear(*old(self)) && cache_sound(*old(self)) && forall|n: Seq<char>|
            #[trigger] table_lookup(old(self).const_items@, n) matches Some(item)
                ==> (closed_const(item.kind.expr) && fitting_value(const_value(item.kind.expr), item.kind.ty) is Some);
        let mut j: usize = 0;
        while j < names.len()
            invariant
                errors_kept(old(self).errors@, self.errors@),
                quiet == (evaluation_clear(*old(self)) && cache_sound(*old(self)) && forall|n: Seq<char>|
                    #[trigger] table_lookup(old(self).const_items@, n) matches Some(item)
                        ==> (closed_const(item.kind.expr) && fitting_value(const_value(item.kind.expr), item.kind.ty) is Some)),
                quiet ==> self.errors@ == old(self).errors@,
                forall|k: int| 0 <= k < names@.len() ==> (#[trigger] names@[k])@ == old(self).const_items@[order@[k] as int].0@,
                forall|k: int| 0 <= k < order@.len() ==> order@[k] < old(self).const_items@.len(),
                order@.len() == old(self).const_items@.len(),
                state_kept(*old(self), *self),
                0 <= j <= names@.len(),
                start == *old(self),
                j == 0 ==> *self == *old(self),
                names@.len() == old(self).const_items@.len(),
                names@.len() > 0 ==> names@[0]@ == old(self).const_items@[order@[0] as int].0@,
                (j > 0 && old(self).const_values@.len() == 0 && old(self).evaluating_consts@.len() == 0
                    && table_lookup(old(self).const_items@, names@[0]@) is Some
                    && closed_const(table_lookup(old(self).const_items@, names@[0]@)->0.kind.expr)) ==> ({
                    let first = first_evaluation_errors(names@[0]@, *table_lookup(old(self).const_items@, names@[0]@)->0);
                    &&& self.errors@.len() >= old(self).errors@.len() + first.len()
                    &&& errors_view(self.errors@).subrange(old(self).errors@.len() as int, (old(self).errors@.len() + first.len()) as int) == first
                }),
                (evaluation_clear(*old(self)) && cache_sound(*old(self))) ==> forall|k: int| 0 <= k < j ==>
                    (table_lookup(old(self).const_items@, (#[trigger] names@[k])@) matches Some(item)
                        ==> (overflowing_const(*item) ==> reported(self.errors@, const_fit_error(names@[k]@, *item)))),
            decreases names@.len() - j,
        {
            let ghost before = *self;
            self.eval_top_const(&names[j]);
            proof {
                if quiet {
                    let n = names@[j as int]@;
                    let t = order@[j as int] as int;
                    lemma_lookup_has(old(self).const_items@, n);
                    assert(old(self).const_items@[t].0@ == n);
                    assert(table_has(old(self).const_items@, n));
                    assert(table_lookup(old(self).const_items@, n) is Some);
                    let item = table_lookup(old(self).const_items@, n)->0;
                    assert(closed_const(item.kind.expr) && fitting_value(const_value(item.kind.expr), item.kind.ty) is Some);
                    if table_lookup(before.const_values@, n) is None {
                        assert(valued_const(*item));
                        assert(!has_name(before.evaluating_consts@, n));
                        lemma_const_errors_of_value(item.kind.expr);
                        assert(first_evaluation_errors(n, *item) =~= Seq::<(Span, Seq<char>)>::empty());
                        assert(errors_view(self.errors@) =~= errors_view(before.errors@));
                        assert(self.errors@ =~= before.errors@);
                    }
                }
            }
            proof {
                if j > 0 && old(self).const_values@.len() == 0 && old(self).evaluating_consts@.len() == 0
                    && table_lookup(old(self).const_items@, names@[0]@) is Some
                    && closed_const(table_lookup(old(self).const_items@, names@[0]@)->0.kind.expr) {
                    let first = first_evaluation_errors(names@[0]@, *table_lookup(old(self).const_items@, names@[0]@)->0);
                    let lo = old(self).errors@.len() as int;
                    assert(errors_view(self.errors@).subrange(lo, lo + first.len())
                        =~= errors_view(before.errors@).subrange(lo, lo + first.len()));
                    assert(self.errors@.len() >= old(self).errors@.len() + first.len());
                }
                if j == 0 && old(self).const_values@.len() == 0 && old(self).evaluating_consts@.len() == 0
                    && table_lookup(old(self).const_items@, names@[0]@) is Some
                    && closed_const(table_lookup(old(self).const_items@, names@[0]@)->0.kind.expr) {
                    let first = first_evaluation_errors(names@[0]@, *table_lookup(old(self).const_items@, names@[0]@)->0);
                    let lo = old(self).errors@.len() as int;
                    assert(!has_name(old(self).evaluating_consts@, names@[0]@));
                    assert(table_lookup(old(self).const_values@, names@[0]@) is None);
                    assert(errors_view(self.errors@) == errors_view(old(self).errors@) + first);
                    assert(errors_view(self.errors@).len() == self.errors@.len());
                    assert(self.errors@.len() >= old(self).errors@.len() + first.len());
                    assert(errors_view(self.errors@).subrange(lo, lo + first.len()) =~= first);
                }
                if evaluation_clear(*old(self)) && cache_sound(*old(self)) {
                    assert forall|k: int| 0 <= k < j + 1 implies
                        (table_lookup(old(self).const_items@, (#[trigger] names@[k])@) matches Some(item)
                            ==> (overflowing_const(*item) ==> reported(self.errors@, const_fit_error(names@[k]@, *item)))) by {
                        if k < j {
                            if let Some(item) = table_lookup(old(self).const_items@, names@[k]@) {
                                if overflowing_const(*item) {
                                    lemma_reported_kept(before.errors@, self.errors@, const_fit_error(names@[k]@, *item));
                                }
                            }
                        }
                    }
                }
            }
            j = j + 1;
        }
        proof {
            if evaluation_clear(*old(self)) && cache_sound(*old(self)) {
                assert forall|n: Seq<char>| #[trigger] table_lookup(old(self).const_items@, n) is Some implies
                    (table_lookup(old(self).const_items@, n) matches Some(item)
                        ==> (overflowing_const(*item) ==> reported(self.errors@, const_fit_error(n, *item)))) by {
                    lemma_lookup_has(old(self).const_items@, n);
                    let t = choose|t: int| 0 <= t < old(self).const_items@.len() && old(self).const_items@[t].0@ == n;
                    assert(visits(order@, t));
                    let k = choose|k: int| 0 <= k < order@.len() && order@[k] == t;
                    assert(names@[k]@ == n);
                }
            }
            if old(self).const_values@.len() == 0 && old(self).evaluating_consts@.len() == 0 {
                assert forall|n: Seq<char>| #[trigger] first_name(old(self).const_items@, n) && table_lookup(old(self).const_items@, n) is Some
                    && closed_const(table_lookup(old(self).const_items@, n)->0.kind.expr) implies ({
                        let first = first_evaluation_errors(n, *table_lookup(old(self).const_items@, n)->0);
                        &&& self.errors@.len() >= old(self).errors@.len() + first.len()
                        &&& errors_view(self.errors@).subrange(old(self).errors@.len() as int, (old(self).errors@.len() + first.len()) as int) == first
                    }) by {
                    let table = old(self).const_items@;
                    lemma_lookup_has(table, n);
                    let t = choose|t: int| 0 <= t < table.len() && table[t].0@ == n;
                    assert(visits(order@, t));
                    let k = choose|k: int| 0 <= k < order@.len() && order@[k] == t;
                    if names@[0]@ != n {
                        assert(k != 0);
                        assert(table[order@[0] as int].0@ != n);
                        assert(chars_lt(n, table[order@[0] as int].0@));
                        assert(!chars_lt(table[order@[k] as int].0@, table[order@[0] as int].0@));
                    }
                    assert(names@[0]@ == n);
                }
            }
        }
    }

    fn check_structs(&mut self)
        ensures
            old(self).structs@.len() == 0 ==> final(self).errors@ == old(self).errors@,
            errors_kept(old(self).errors@, final(self).errors@),
            state_kept(*old(self), *final(self)),
            forall|t: int| 0 <= t < old(self).structs@.len() ==> struct_fields_reported(*(#[trigger] old(self).structs@[t]).1,
                old(self).interfaces@, final(self).errors@),
    {
        let order = sorted_order(&self.structs);
        let mut i: usize = 0;
        while i < order.len()
            invariant
                order@.len() == 0 ==> self.errors@ == old(self).errors@,
                errors_kept(old(self).errors@, self.errors@),
                state_kept(*old(self), *self),
                0 <= i <= order@.len(),
                order@.len() == self.structs@.len(),
                forall|k: int| 0 <= k < order@.len() ==> order@[k] < self.structs@.len(),
                forall|t: int| 0 <= t < i ==> struct_fields_reported(*self.structs@[#[trigger] order@[t] as int].1,
                    old(self).interfaces@, self.errors@),
            decreases order@.len() - i,
        {
            let ghost start = self.errors@;
            let item: &'a StructItem = self.structs[order[i]].1;
            let scope = scope_from_generics(&item.kind.generics, &item.kind.where_predicates);
            let ghost is_param = |n: Seq<char>| type_param_named(item.kind.generics@, n);
            proof {
                assert(is_param =~= (|n: Seq<char>| has_name(scope.type_params@, n)));
            }
            self.check_generic_param_names(&item.kind.generics);
            self.check_duplicate_fields(&item.kind.fields);
            let mut k: usize = 0;
            while k < item.kind.fields.len()
                invariant
                    errors_kept(old(self).errors@, self.errors@),
                    errors_kept(start, self.errors@),
                    state_kept(*old(self), *self),
                    0 <= k <= item.kind.fields@.len(),
                    is_param == (|n: Seq<char>| has_name(scope.type_params@, n)),
                    is_param == (|n: Seq<char>| type_param_named(item.kind.generics@, n)),
                    forall|q: int| 0 <= q < k ==> interface_ty_reported((#[trigger] item.kind.fields@[q]).kind.ty, is_param,
                        old(self).interfaces@, self.errors@),
                decreases item.kind.fields@.len() - k,
            {
                let ghost before = self.errors@;
                self.check_ty_wf(&item.kind.fields[k].kind.ty, &scope, false);
                proof {
                    lemma_interface_ty_checked(item.kind.fields@[k as int].kind.ty, is_param, old(self).interfaces@, before, self.errors@);
                    assert forall|q: int| 0 <= q < k + 1 implies interface_ty_reported((#[trigger] item.kind.fields@[q]).kind.ty,
                        is_param, old(self).interfaces@, self.errors@) by {
                        if q < k {
                            lemma_interface_ty_kept(item.kind.fields@[q].kind.ty, is_param, old(self).interfaces@, before, self.errors@);
                        }
                    }
                }
                k = k + 1;
            }
            let ghost fields_done = self.errors@;
            self.check_where_predicates(&item.kind.where_predicates, &scope);
            proof {
                assert(struct_fields_reported(*item, old(self).interfaces@, fields_done));
                lemma_struct_fields_kept(*item, old(self).interfaces@, fields_done, self.errors@);
                assert forall|t: int| 0 <= t < i + 1 implies struct_fields_reported(*self.structs@[#[trigger] order@[t] as int].1,
                    old(self).interfaces@, self.errors@) by {
                    if t < i {
                        lemma_struct_fields_kept(*self.structs@[order@[t] as int].1, old(self).interfaces@, start, self.errors@);
                    }
                }
            }
            i = i + 1;
        }
        proof {
            assert forall|t: int| 0 <= t < old(self).structs@.len() implies struct_fields_reported(*(#[trigger] old(self).structs@[t]).1,
                old(self).interfaces@, self.errors@) by {
                assert(visits(order@, t));
                let k = choose|k: int| 0 <= k < order@.len() && order@[k] == t;
                assert(struct_fields_reported(*self.structs@[order@[k] as int].1, old(self).interfaces@, self.errors@));
            }
        }
    }

    #[verifier::spinoff_prover]
    #[verifier::rlimit(80)]
    fn check_enums(&mut self)
        ensures
            old(self).enums@.len() == 0 ==> final(self).errors@ == old(self).errors@,
            errors_kept(old(self).errors@, final(self).errors@),
            state_kept(*old(self), *final(self)),
            forall|t: int| 0 <= t < old(self).enums@.len() ==> enum_discriminants_reported(*(#[trigger] old(self).enums@[t]).1, final(self).errors@),
            forall|t: int| 0 <= t < old(self).enums@.len() ==> enum_variants_reported(*(#[trigger] old(self).enums@[t]).1, final(self).errors@),
            (evaluation_clear(*old(self)) && cache_sound(*old(self))) ==> forall|t: int| 0 <= t < old(self).enums@.len()
                ==> enum_discriminant_fits_reported(*(#[trigger] old(self).enums@[t]).1, old(self).const_items@, final(self).errors@),
    {
        let ghost ready = evaluation_clear(*old(self)) && cache_sound(*old(self));
        let ghost consts = old(self).const_items@;
        let order = sorted_order(&self.enums);
        let mut i: usize = 0;
        while i < order.len()
            invariant
                order@.len() == 0 ==> self.errors@ == old(self).errors@,
                errors_kept(old(self).errors@, self.errors@),
                state_kept(*old(self), *self),
                0 <= i <= order@.len(),
                order@.len() == self.enums@.len(),
                forall|k: int| 0 <= k < order@.len() ==> order@[k] < self.enums@.len(),
                forall|t: int| 0 <= t < i ==> enum_discriminants_reported(*self.enums@[#[trigger] order@[t] as int].1, self.errors@),
                forall|t: int| 0 <= t < i ==> enum_variants_reported(*self.enums@[#[trigger] order@[t] as int].1, self.errors@),
                ready == (evaluation_clear(*old(self)) && cache_sound(*old(self))),
                consts == old(self).const_items@,
                ready ==> forall|t: int| 0 <= t < i ==> enum_discriminant_fits_reported(*self.enums@[#[trigger] order@[t] as int].1,
                    consts, self.errors@),
            decreases order@.len() - i,
        {
            let ghost start = self.errors@;
            let item: &'a EnumItem = self.enums[order[i]].1;
            let scope = scope_from_generics(&item.kind.generics, &item.kind.where_predicates);
            self.check_generic_param_names(&item.kind.generics);
            self.check_where_predicates(&item.kind.where_predicates, &scope);
            let mut variants: Vec<String> = Vec::new();
            let mut discriminants: Vec<IntValue> = Vec::new();
            let mut k: usize = 0;
            while k < item.kind.variants.len()
                invariant
                    errors_kept(old(self).errors@, self.errors@),
                    errors_kept(start, self.errors@),
                    state_kept(*old(self), *self),
                    0 <= k <= item.kind.variants@.len(),
                    forall|q: int| 0 <= q < k ==> discriminant_misuse_reported(#[trigger] item.kind.variants@[q], self.errors@),
                    forall|q: int| 0 <= q < k ==> #[trigger] variant_duplicate_reported(*item, q, self.errors@),
                    forall|q: int| 0 <= q < k ==> #[trigger] discriminant_duplicate_reported(*item, q, self.errors@),
                    forall|q: int| 0 <= q < k ==> (closed_discriminant(#[trigger] item.kind.variants@[q]) matches Some(x)
                        ==> exists|dd: int| 0 <= dd < discriminants@.len() && (#[trigger] discriminants@[dd])@ == x),
                    forall|n: Seq<char>| #[trigger] has_name(variants@, n) <==> exists|q: int| 0 <= q < k
                        && (#[trigger] item.kind.variants@[q]).kind.name@ == n,
                    ready == (evaluation_clear(*old(self)) && cache_sound(*old(self))),
                    consts == old(self).const_items@,
                    forall|n: Seq<char>| #[trigger] has_name(scope.const_params@, n) ==> const_param_named(item.kind.generics@, n),
                    ready ==> forall|q: int| 0 <= q < k ==> #[trigger] discriminant_fit_reported(*item, item.kind.variants@[q], consts, self.errors@),
                decreases item.kind.variants@.len() - k,
            {
                let ghost vstart = self.errors@;
                let variant = &item.kind.variants[k];
                let ghost names0 = variants@;
                if !insert_name(&mut variants, &variant.kind.name) {
                    self.error(variant.span, cat3("duplicate enum variant `", variant.kind.name.as_str(), "`"));
                    proof {
                        let last = self.errors@.len() - 1;
                        assert((self.errors@[last].0, self.errors@[last].1@) == duplicate_variant_error(*variant));
                    }
                }
                let ghost named = self.errors@;
                proof {
                    assert forall|n: Seq<char>| #[trigger] has_name(variants@, n) <==> exists|q: int| 0 <= q < k + 1
                        && (#[trigger] item.kind.variants@[q]).kind.name@ == n by {
                        if n == variant.kind.name@ {
                            assert(item.kind.variants@[k as int].kind.name@ == n);
                        }
                        if exists|q: int| 0 <= q < k + 1 && (#[trigger] item.kind.variants@[q]).kind.name@ == n {
                            let q = choose|q: int| 0 <= q < k + 1 && (#[trigger] item.kind.variants@[q]).kind.name@ == n;
                            if q < k {
                                assert(has_name(names0, n));
                            }
                        }
                    }
                    if exists|q: int| 0 <= q < k && (#[trigger] item.kind.variants@[q]).kind.name@ == variant.kind.name@ {
                        assert(has_name(names0, variant.kind.name@));
                        assert(reported(named, duplicate_variant_error(*variant)));
                    }
                }
                match &variant.kind.payload.kind {
                    VariantPayloadKind::Unit => {},
                    VariantPayloadKind::Tuple(tys) => {
                        let mut t: usize = 0;
                        while t < tys.len()
                            invariant
                                errors_kept(old(self).errors@, self.errors@),
                                errors_kept(vstart, self.errors@),
                                errors_kept(named, self.errors@),
                                state_kept(*old(self), *self),
                                0 <= t <= tys@.len(),
                            decreases tys@.len() - t,
                        {
                            self.check_ty_wf(&tys[t], &scope, false);
                            t = t + 1;
                        }
                    },
                    VariantPayloadKind::Struct(fields) => {
                        self.check_duplicate_fields(fields);
                        let mut t: usize = 0;
                        while t < fields.len()
                            invariant
                                errors_kept(old(self).errors@, self.errors@),
                                errors_kept(vstart, self.errors@),
                                errors_kept(named, self.errors@),
                                state_kept(*old(self), *self),
                                0 <= t <= fields@.len(),
                            decreases fields@.len() - t,
                        {
                            self.check_ty_wf(&fields[t].kind.ty, &scope, false);
                            t = t + 1;
                        }
                    },
                }
                if let Some(discriminant) = &variant.kind.discriminant {
                    match &variant.kind.payload.kind {
                        VariantPayloadKind::Unit => {},
                        _ => {
                            self.error(discriminant.span, owned("only unit enum variants may have explicit discriminants"));
                        },
                    }
                    let ghost marked = self.errors@;
                    proof {
                        if !(variant.kind.payload.kind is Unit) {
                            let last = self.errors@.len() - 1;
                            assert((self.errors@[last].0, self.errors@[last].1@)
                                == (discriminant.span, "only unit enum variants may have explicit discriminants"@));
                        }
                    }
                    if let Some(value) = self.eval_const_expr(discriminant, &scope, EVAL_FUEL) {
                        if let Some(repr) = item.kind.repr {
                            if !fits_int_ty(&value, repr) {
                                self.error(discriminant.span, value_message("discriminant `", &value, "` does not fit in ", repr));
                                proof {
                                    let last = self.errors@.len() - 1;
                                    assert((self.errors@[last].0, self.errors@[last].1@) == discriminant_fit_error(discriminant.span, value@, repr));
                                    assert(reported(self.errors@, discriminant_fit_error(discriminant.span, value@, repr)));
                                }
                            }
                        }
                        let ghost fit_done = self.errors@;
                        let ghost value_view = value@;
                        let ghost disc0 = discriminants@;
                        let mut seen = false;
                        let mut d: usize = 0;
                        while d < discriminants.len()
                            invariant
                                discriminants@ == disc0,
                                seen <==> exists|dd: int| 0 <= dd < d && (#[trigger] discriminants@[dd])@ == value_view,
                                value@ == value_view,
                                errors_kept(old(self).errors@, self.errors@),
                                errors_kept(vstart, self.errors@),
                                errors_kept(named, self.errors@),
                                errors_kept(marked, self.errors@),
                                errors_kept(fit_done, self.errors@),
                                state_kept(*old(self), *self),
                                0 <= d <= discriminants@.len(),
                            decreases discriminants@.len() - d,
                        {
                            if int_eq(&discriminants[d], &value) {
                                seen = true;
                            }
                            d = d + 1;
                        }
                        if seen {
                            let mut message = owned("duplicate enum discriminant `");
                            let text = int_to_string(&value);
                            push_string(&mut message, &text);
                            push_str(&mut message, "`");
                            self.error(discriminant.span, message);
                            proof {
                                let last = self.errors@.len() - 1;
                                assert((self.errors@[last].0, self.errors@[last].1@)
                                    == duplicate_discriminant_error(discriminant.span, value_view));
                            }
                        } else {
                            discriminants.push(value);
                            proof {
                                assert(discriminants@[disc0.len() as int]@ == value_view);
                                assert forall|dd: int| 0 <= dd < disc0.len() implies discriminants@[dd] == disc0[dd] by {}
                            }
                        }
                        proof {
                            if closed_discriminant(*variant) is Some {
                                assert(value_view == closed_discriminant(*variant)->0);
                                if exists|q: int| 0 <= q < k
                                    && closed_discriminant(#[trigger] item.kind.variants@[q]) == closed_discriminant(item.kind.variants@[k as int]) {
                                    let q = choose|q: int| 0 <= q < k
                                        && closed_discriminant(#[trigger] item.kind.variants@[q]) == closed_discriminant(item.kind.variants@[k as int]);
                                    let dd = choose|dd: int| 0 <= dd < disc0.len() && (#[trigger] disc0[dd])@ == value_view;
                                    assert(discriminants@[dd]@ == value_view);
                                    assert(seen);
                                }
                            }
                            assert(discriminant_duplicate_reported(*item, k as int, self.errors@));
                            assert forall|q: int| 0 <= q < k + 1 implies (closed_discriminant(#[trigger] item.kind.variants@[q]) matches Some(x)
                                ==> exists|dd: int| 0 <= dd < discriminants@.len() && (#[trigger] discriminants@[dd])@ == x) by {
                                if q < k {
                                    if let Some(x) = closed_discriminant(item.kind.variants@[q]) {
                                        let dd = choose|dd: int| 0 <= dd < disc0.len() && (#[trigger] disc0[dd])@ == x;
                                        assert(discriminants@[dd] == disc0[dd]);
                                    }
                                } else if let Some(x) = closed_discriminant(item.kind.variants@[q]) {
                                    if seen {
                                        let dd = choose|dd: int| 0 <= dd < disc0.len() && (#[trigger] disc0[dd])@ == value_view;
                                        assert(discriminants@[dd]@ == value_view);
                                    } else {
                                        assert(discriminants@[disc0.len() as int]@ == value_view);
                                    }
                                }
                            }
                        }
                        proof {
                            if ready && names_closed_in(*discriminant, consts, item.kind.generics@) {
                                lemma_names_closed_in(*discriminant, consts, item.kind.generics@, scope.const_params@);
                                assert(value_view == const_value_with(*discriminant, consts)->0);
                                if item.kind.repr is Some && !fits_spec(value_view, item.kind.repr->0) {
                                    let e = discriminant_fit_error(discriminant.span, value_view, item.kind.repr->0);
                                    assert(reported(fit_done, e));
                                    lemma_reported_kept(fit_done, self.errors@, e);
                                }
                                assert(discriminant_fit_reported(*item, item.kind.variants@[k as int], consts, self.errors@));
                            }
                        }
                    }
                    proof {
                        if !(variant.kind.payload.kind is Unit) {
                            lemma_reported_kept(marked, self.errors@, (discriminant.span, "only unit enum variants may have explicit discriminants"@));
                        }
                        assert(discriminant_duplicate_reported(*item, k as int, self.errors@));
                    }
                }
                proof {
                    assert(discriminant_duplicate_reported(*item, k as int, self.errors@));
                    assert forall|q: int| 0 <= q < k + 1 implies #[trigger] discriminant_duplicate_reported(*item, q, self.errors@) by {
                        if q < k {
                            assert(discriminant_duplicate_reported(*item, q, vstart));
                            if closed_discriminant(item.kind.variants@[q]) is Some && exists|p: int| 0 <= p < q
                                && closed_discriminant(#[trigger] item.kind.variants@[p]) == closed_discriminant(item.kind.variants@[q]) {
                                lemma_reported_kept(vstart, self.errors@, duplicate_discriminant_error(
                                    item.kind.variants@[q].kind.discriminant->0.span, closed_discriminant(item.kind.variants@[q])->0));
                            }
                        }
                    }
                    if ready {
                        assert forall|q: int| 0 <= q < k + 1 implies #[trigger] discriminant_fit_reported(*item, item.kind.variants@[q], consts, self.errors@) by {
                            let v = item.kind.variants@[q];
                            if v.kind.discriminant is Some && item.kind.repr is Some
                                && names_closed_in(v.kind.discriminant->0, consts, item.kind.generics@)
                                && const_value_with(v.kind.discriminant->0, consts) is Some
                                && !fits_spec(const_value_with(v.kind.discriminant->0, consts)->0, item.kind.repr->0) {
                                let e = discriminant_fit_error(v.kind.discriminant->0.span,
                                    const_value_with(v.kind.discriminant->0, consts)->0, item.kind.repr->0);
                                if q < k {
                                    assert(discriminant_fit_reported(*item, v, consts, vstart));
                                    lemma_reported_kept(vstart, self.errors@, e);
                                } else {
                                    lemma_names_closed_in(v.kind.discriminant->0, consts, item.kind.generics@, scope.const_params@);
                                }
                            }
                        }
                    }
                    assert forall|q: int| 0 <= q < k + 1 implies discriminant_misuse_reported(#[trigger] item.kind.variants@[q], self.errors@) by {
                        let v = item.kind.variants@[q];
                        if v.kind.discriminant is Some && !(v.kind.payload.kind is Unit) {
                            let e = (v.kind.discriminant->0.span, "only unit enum variants may have explicit discriminants"@);
                            if q < k {
                                assert(discriminant_misuse_reported(v, vstart));
                                lemma_reported_kept(vstart, self.errors@, e);
                            }
                        }
                    }
                    assert forall|q: int| 0 <= q < k + 1 implies #[trigger] variant_duplicate_reported(*item, q, self.errors@) by {
                        if exists|p: int| 0 <= p < q && (#[trigger] item.kind.variants@[p]).kind.name@ == item.kind.variants@[q].kind.name@ {
                            if q < k {
                                assert(variant_duplicate_reported(*item, q, vstart));
                                lemma_reported_kept(vstart, self.errors@, duplicate_variant_error(item.kind.variants@[q]));
                            } else {
                                lemma_reported_kept(named, self.errors@, duplicate_variant_error(item.kind.variants@[q]));
                            }
                        }
                    }
                }
                k = k + 1;
            }
            proof {
                assert(enum_variants_reported(*item, self.errors@));
                assert forall|t: int| 0 <= t < i + 1 implies enum_variants_reported(*self.enums@[#[trigger] order@[t] as int].1, self.errors@) by {
                    if t < i {
                        lemma_enum_variants_kept(*self.enums@[order@[t] as int].1, start, self.errors@);
                    }
                }
                assert forall|t: int| 0 <= t < i + 1 implies enum_discriminants_reported(*self.enums@[#[trigger] order@[t] as int].1, self.errors@) by {
                    if t < i {
                        lemma_enum_discriminants_kept(*self.enums@[order@[t] as int].1, start, self.errors@);
                    }
                }
                if ready {
                    assert forall|t: int| 0 <= t < i + 1 implies enum_discriminant_fits_reported(*self.enums@[#[trigger] order@[t] as int].1,
                        consts, self.errors@) by {
                        if t < i {
                            lemma_discriminant_fits_kept(*self.enums@[order@[t] as int].1, consts, start, self.errors@);
                        }
                    }
                }
            }
            i = i + 1;
        }
        proof {
            assert forall|t: int| 0 <= t < old(self).enums@.len() implies enum_variants_reported(*(#[trigger] old(self).enums@[t]).1, self.errors@) by {
                assert(visits(order@, t));
                let k = choose|k: int| 0 <= k < order@.len() && order@[k] == t;
                assert(enum_variants_reported(*self.enums@[order@[k] as int].1, self.errors@));
            }
            assert forall|t: int| 0 <= t < old(self).enums@.len() implies enum_discriminants_reported(*(#[trigger] old(self).enums@[t]).1, self.errors@) by {
                assert(visits(order@, t));
                let k = choose|k: int| 0 <= k < order@.len() && order@[k] == t;
                assert(enum_discriminants_reported(*self.enums@[order@[k] as int].1, self.errors@));
            }
            if ready {
                assert forall|t: int| 0 <= t < old(self).enums@.len() implies enum_discriminant_fits_reported(
                    *(#[trigger] old(self).enums@[t]).1, consts, self.errors@) by {
                    assert(visits(order@, t));
                    let k = choose|k: int| 0 <= k < order@.len() && order@[k] == t;
                    assert(enum_discriminant_fits_reported(*self.enums@[order@[k] as int].1, consts, self.errors@));
                }
            }
        }
    }

    fn check_interfaces(&mut self)
        ensures
            old(self).interfaces@.len() == 0 ==> final(self).errors@ == old(self).errors@,
            errors_kept(old(self).errors@, final(self).errors@),
            state_kept(*old(self), *final(self)),
            forall|t: int| 0 <= t < old(self).interfaces@.len() ==> open_paths_reported(old(self).interfaces@,
                Seq::empty(), (#[trigger] old(self).interfaces@[t]).1.kind.name@, EVAL_FUEL as int, final(self).errors@),
            (evaluation_clear(*old(self)) && cache_sound(*old(self))) ==> forall|t: int| 0 <= t < old(self).interfaces@.len()
                ==> interface_defaults_reported(*(#[trigger] old(self).interfaces@[t]).1, old(self).const_items@, final(self).errors@),
    {
        let ghost ready = evaluation_clear(*old(self)) && cache_sound(*old(self));
        let ghost consts = old(self).const_items@;
        let order = sorted_order(&self.interfaces);
        let mut i: usize = 0;
        while i < order.len()
            invariant
                order@.len() == 0 ==> self.errors@ == old(self).errors@,
                errors_kept(old(self).errors@, self.errors@),
                state_kept(*old(self), *self),
                0 <= i <= order@.len(),
                order@.len() == self.interfaces@.len(),
                forall|k: int| 0 <= k < order@.len() ==> order@[k] < self.interfaces@.len(),
                forall|t: int| 0 <= t < i ==> open_paths_reported(old(self).interfaces@, Seq::empty(),
                    self.interfaces@[#[trigger] order@[t] as int].1.kind.name@, EVAL_FUEL as int, self.errors@),
                ready == (evaluation_clear(*old(self)) && cache_sound(*old(self))),
                consts == old(self).const_items@,
                ready ==> forall|t: int| 0 <= t < i ==> interface_defaults_reported(*self.interfaces@[#[trigger] order@[t] as int].1,
                    consts, self.errors@),
            decreases order@.len() - i,
        {
            let ghost start = self.errors@;
            let item: &'a InterfaceItem = self.interfaces[order[i]].1;
            let mut scope = scope_from_generics(&item.kind.generics, &Vec::new());
            scope.obligations.push((Node::new(item.span, TyKind::SelfTy), current_interface_ref(item)));
            self.check_generic_param_names(&item.kind.generics);
            let mut names: Vec<String> = Vec::new();
            let mut k: usize = 0;
            while k < item.kind.super_interfaces.len()
                invariant
                    errors_kept(old(self).errors@, self.errors@),
                    errors_kept(start, self.errors@),
                    state_kept(*old(self), *self),
                    0 <= k <= item.kind.super_interfaces@.len(),
                decreases item.kind.super_interfaces@.len() - k,
            {
                self.check_interface_ref(&item.kind.super_interfaces[k], &scope);
                k = k + 1;
            }
            let mut m: usize = 0;
            while m < item.kind.members.len()
                invariant
                    errors_kept(old(self).errors@, self.errors@),
                    errors_kept(start, self.errors@),
                    state_kept(*old(self), *self),
                    0 <= m <= item.kind.members@.len(),
                    ready == (evaluation_clear(*old(self)) && cache_sound(*old(self))),
                    consts == old(self).const_items@,
                    forall|n: Seq<char>| #[trigger] has_name(scope.const_params@, n) ==> const_param_named(item.kind.generics@, n),
                    ready ==> forall|q: int| 0 <= q < m ==> #[trigger] default_fit_reported(*item, item.kind.members@[q], consts, self.errors@),
                decreases item.kind.members@.len() - m,
            {
                let ghost mstart = self.errors@;
                match &item.kind.members[m].kind {
                    InterfaceMemberKind::AssocConst(sig) => {
                        if !insert_name(&mut names, &sig.kind.name) {
                            self.error(sig.span, cat3("duplicate interface member `", sig.kind.name.as_str(), "`"));
                        }
                        if let Some(default) = &sig.kind.default {
                            if let Some(value) = self.eval_const_expr(default, &scope, EVAL_FUEL) {
                                if !fits_int_ty(&value, sig.kind.ty) {
                                    self.error(default.span, value_message("associated const default `", &value, "` does not fit in ", sig.kind.ty));
                                    proof {
                                        let last = self.errors@.len() - 1;
                                        assert((self.errors@[last].0, self.errors@[last].1@) == default_fit_error(default.span, value@, sig.kind.ty));
                                        assert(reported(self.errors@, default_fit_error(default.span, value@, sig.kind.ty)));
                                    }
                                }
                            }
                            proof {
                                if ready && names_closed_in(*default, consts, item.kind.generics@) {
                                    lemma_names_closed_in(*default, consts, item.kind.generics@, scope.const_params@);
                                }
                            }
                        }
                    },
                    InterfaceMemberKind::Method(sig) => {
                        if !insert_name(&mut names, &sig.kind.name) {
                            self.error(sig.span, cat3("duplicate interface member `", sig.kind.name.as_str(), "`"));
                        }
                        self.check_method_sig(sig, &scope, true);
                    },
                }
                proof {
                    if ready {
                        assert forall|q: int| 0 <= q < m + 1 implies #[trigger] default_fit_reported(*item, item.kind.members@[q], consts, self.errors@) by {
                            if q < m {
                                let mm = item.kind.members@[q];
                                assert(default_fit_reported(*item, mm, consts, mstart));
                                if let InterfaceMemberKind::AssocConst(sig) = mm.kind {
                                    if sig.kind.default is Some && names_closed_in(sig.kind.default->0, consts, item.kind.generics@)
                                        && const_value_with(sig.kind.default->0, consts) is Some
                                        && !fits_spec(const_value_with(sig.kind.default->0, consts)->0, sig.kind.ty) {
                                        lemma_reported_kept(mstart, self.errors@, default_fit_error(sig.kind.default->0.span,
                                            const_value_with(sig.kind.default->0, consts)->0, sig.kind.ty));
                                    }
                                }
                            }
                        }
                    }
                }
                m = m + 1;
            }
            let interface_ref = current_interface_ref(item);
            let mut stack: Vec<String> = Vec::new();
            proof {
                assert(stack@ =~= Seq::<String>::empty());
            }
            let ghost members_done = self.errors@;
            self.interface_reqs_checked(&interface_ref, &mut stack, &scope, EVAL_FUEL);
            proof {
                if ready {
                    lemma_interface_defaults_kept(*item, consts, members_done, self.errors@);
                    assert forall|t: int| 0 <= t < i + 1 implies interface_defaults_reported(*self.interfaces@[#[trigger] order@[t] as int].1,
                        consts, self.errors@) by {
                        if t < i {
                            lemma_interface_defaults_kept(*self.interfaces@[order@[t] as int].1, consts, start, self.errors@);
                        }
                    }
                }
                assert forall|t: int| 0 <= t < i + 1 implies open_paths_reported(old(self).interfaces@, Seq::empty(),
                    self.interfaces@[#[trigger] order@[t] as int].1.kind.name@, EVAL_FUEL as int, self.errors@) by {
                    if t < i {
                        lemma_open_paths_kept(old(self).interfaces@, Seq::empty(),
                            self.interfaces@[order@[t] as int].1.kind.name@, EVAL_FUEL as int, start, self.errors@);
                    }
                }
            }
            i = i + 1;
        }
        proof {
            assert forall|t: int| 0 <= t < old(self).interfaces@.len() implies open_paths_reported(old(self).interfaces@,
                Seq::empty(), (#[trigger] old(self).interfaces@[t]).1.kind.name@, EVAL_FUEL as int, self.errors@) by {
                assert(visits(order@, t));
                let k = choose|k: int| 0 <= k < order@.len() && order@[k] == t;
                assert(open_paths_reported(old(self).interfaces@, Seq::empty(),
                    self.interfaces@[order@[k] as int].1.kind.name@, EVAL_FUEL as int, self.errors@));
            }
            if ready {
                assert forall|t: int| 0 <= t < old(self).interfaces@.len() implies interface_defaults_reported(
                    *(#[trigger] old(self).interfaces@[t]).1, consts, self.errors@) by {
                    assert(visits(order@, t));
                    let k = choose|k: int| 0 <= k < order@.len() && order@[k] == t;
                    assert(interface_defaults_reported(*self.interfaces@[order@[k] as int].1, consts, self.errors@));
                }
            }
        }
    }

    fn check_impls(&mut self)
        ensures
            old(self).impls@.len() == 0 ==> final(self).errors@ == old(self).errors@,
            errors_kept(old(self).errors@, final(self).errors@),
            state_kept(*old(self), *final(self)),
            forall|j: int| 0 <= j < old(self).impls@.len() ==> impl_methods_reported(*(#[trigger] old(self).impls@[j]),
                old(self).interfaces@, final(self).errors@),
    {
        let mut i: usize = 0;
        while i < self.impls.len()
            invariant
                self.impls@.len() == 0 ==> self.errors@ == old(self).errors@,
                errors_kept(old(self).errors@, self.errors@),
                state_kept(*old(self), *self),
                0 <= i <= self.impls@.len(),
                forall|j: int| 0 <= j < i ==> impl_methods_reported(*(#[trigger] old(self).impls@[j]),
                    old(self).interfaces@, self.errors@),
            decreases self.impls@.len() - i,
        {
            let ghost start = self.errors@;
            let item: &'a ImplItem = self.impls[i];
            let scope = scope_from_generics(&item.kind.generics, &item.kind.where_predicates);
            self.check_generic_param_names(&item.kind.generics);
            self.check_where_predicates(&item.kind.where_predicates, &scope);
            self.check_ty_wf(&item.kind.self_ty, &scope, false);
            let ghost before_impl = self.errors@;
            if let Some(interface_ref) = &item.kind.interface {
                self.check_interface_ref(interface_ref, &scope);
                self.check_interface_impl(item, interface_ref, &scope);
            }
            let ghost after_impl = self.errors@;
            proof {
                assert(impl_methods_reported(*item, old(self).interfaces@, after_impl));
            }
            let mut m: usize = 0;
            while m < item.kind.members.len()
                invariant
                    errors_kept(old(self).errors@, self.errors@),
                    errors_kept(start, self.errors@),
                    errors_kept(after_impl, self.errors@),
                    state_kept(*old(self), *self),
                    0 <= m <= item.kind.members@.len(),
                decreases item.kind.members@.len() - m,
            {
                match &item.kind.members[m].kind {
                    ImplMemberKind::AssocConst(c) => {
                        self.check_assoc_const_impl_expr(c, &scope);
                    },
                    ImplMemberKind::Method(method) => {
                        self.check_method_sig(&method.kind.sig, &scope, true);
                        self.check_method_body(method, &item.kind.self_ty, &scope);
                    },
                }
                m = m + 1;
            }
            proof {
                lemma_impl_methods_kept(*item, old(self).interfaces@, after_impl, self.errors@);
                assert forall|j: int| 0 <= j < i + 1 implies impl_methods_reported(*(#[trigger] old(self).impls@[j]),
                    old(self).interfaces@, self.errors@) by {
                    if j < i {
                        lemma_impl_methods_kept(*old(self).impls@[j], old(self).interfaces@, start, self.errors@);
                    }
                }
            }
            i = i + 1;
        }
    }

    fn check_interface_impl(&mut self, item: &'a ImplItem, interface_ref: &InterfaceRef, scope: &GenericScope)
        ensures
            errors_kept(old(self).errors@, final(self).errors@),
            state_kept(*old(self), *final(self)),
            table_lookup(old(self).interfaces@, ref_name(*interface_ref)) matches Some(it) ==> forall|m: int|
                0 <= m < it.kind.members@.len() ==> ((#[trigger] it.kind.members@[m]).kind matches InterfaceMemberKind::Method(sig)
                    ==> (!impl_has_method(*item, sig.kind.name@)
                        ==> reported(final(self).errors@, missing_method_error(*item, ref_name(*interface_ref), sig.kind.name@)))),
            table_lookup(old(self).interfaces@, ref_name(*interface_ref)) matches Some(it) ==> forall|n: Seq<char>|
                #[trigger] own_const_sig(it.kind.members@, n) matches Some(sig)
                    ==> (first_impl_const(item.kind.members@, n) matches Some(c)
                        ==> (c.kind.ty != sig.kind.ty ==> reported(final(self).errors@, const_type_error(n, c, sig)))),
    {
        let reqs = match self.interface_reqs(interface_ref) {
            Some(r) => r,
            None => return,
        };
        let const_order = sorted_order(&reqs.consts);
        let mut i: usize = 0;
        while i < const_order.len()
            invariant
                errors_kept(old(self).errors@, self.errors@),
                state_kept(*old(self), *self),
                0 <= i <= const_order@.len(),
                const_order@.len() == reqs.consts@.len(),
                forall|k: int| 0 <= k < const_order@.len() ==> const_order@[k] < reqs.consts@.len(),
                forall|t: int| 0 <= t < i ==> (first_impl_const(item.kind.members@, reqs.consts@[#[trigger] const_order@[t] as int].0@)
                    matches Some(c) ==> (c.kind.ty != reqs.consts@[const_order@[t] as int].1.kind.ty
                        ==> reported(self.errors@, const_type_error(reqs.consts@[const_order@[t] as int].0@, c,
                            *reqs.consts@[const_order@[t] as int].1)))),
            decreases const_order@.len() - i,
        {
            let ghost start = self.errors@;
            let (name, sig) = &reqs.consts[const_order[i]];
            let mut provided: Option<&crate::ast::AssocConstImpl> = None;
            let mut m: usize = 0;
            while m < item.kind.members.len()
                invariant_except_break
                    errors_kept(old(self).errors@, self.errors@),
                    state_kept(*old(self), *self),
                    0 <= m <= item.kind.members@.len(),
                    provided is None,
                    forall|q: int| 0 <= q < m ==> !((#[trigger] item.kind.members@[q]).kind matches ImplMemberKind::AssocConst(c)
                        && c.kind.name@ == name@),
                ensures
                    errors_kept(old(self).errors@, self.errors@),
                    state_kept(*old(self), *self),
                    provided matches Some(p) ==> first_impl_const(item.kind.members@, name@) == Some(*p),
                    provided is None ==> forall|q: int| 0 <= q < item.kind.members@.len()
                        ==> !((#[trigger] item.kind.members@[q]).kind matches ImplMemberKind::AssocConst(c) && c.kind.name@ == name@),
                decreases item.kind.members@.len() - m,
            {
                if let ImplMemberKind::AssocConst(c) = &item.kind.members[m].kind {
                    if crate::text::str_eq(c.kind.name.as_str(), name.as_str()) {
                        provided = Some(c);
                        proof {
                            lemma_first_impl_const(item.kind.members@, name@, m as int);
                        }
                        break;
                    }
                }
                proof {
                    assert(!(item.kind.members@[m as int].kind matches ImplMemberKind::AssocConst(c) && c.kind.name@ == name@));
                }
                m = m + 1;
            }
            proof {
                if provided is None {
                    lemma_first_impl_const_none(item.kind.members@, name@);
                }
            }
            match provided {
                Some(p) => {
                    if p.kind.ty != sig.kind.ty {
                        let mut message = cat3("associated const `", name.as_str(), "` has type `");
                        let a = p.kind.ty.to_string();
                        push_string(&mut message, &a);
                        push_str(&mut message, "`, expected `");
                        let b = sig.kind.ty.to_string();
                        push_string(&mut message, &b);
                        push_str(&mut message, "`");
                        self.error(p.span, message);
                        proof {
                            let last = self.errors@.len() - 1;
                            assert((self.errors@[last].0, self.errors@[last].1@) == const_type_error(name@, *p, **sig));
                        }
                    }
                },
                None => {
                    if sig.kind.default.is_none() {
                        let iname = path_name(&interface_ref.kind.path);
                        let mut message = cat3("impl for `", iname.as_str(), "` is missing associated const `");
                        push_string(&mut message, name);
                        push_str(&mut message, "`");
                        self.error(item.span, message);
                    }
                },
            }
            proof {
                assert forall|t: int| 0 <= t < i + 1 implies (first_impl_const(item.kind.members@, reqs.consts@[#[trigger] const_order@[t] as int].0@)
                    matches Some(c) ==> (c.kind.ty != reqs.consts@[const_order@[t] as int].1.kind.ty
                        ==> reported(self.errors@, const_type_error(reqs.consts@[const_order@[t] as int].0@, c,
                            *reqs.consts@[const_order@[t] as int].1)))) by {
                    if t < i {
                        if let Some(c) = first_impl_const(item.kind.members@, reqs.consts@[const_order@[t] as int].0@) {
                            if c.kind.ty != reqs.consts@[const_order@[t] as int].1.kind.ty {
                                lemma_reported_kept(start, self.errors@, const_type_error(reqs.consts@[const_order@[t] as int].0@, c,
                                    *reqs.consts@[const_order@[t] as int].1));
                            }
                        }
                    }
                }
            }
            i = i + 1;
        }
        let ghost iname = ref_name(*interface_ref);
        let ghost after_consts = self.errors@;
        proof {
            if let Some(it) = table_lookup(old(self).interfaces@, ref_name(*interface_ref)) {
                assert forall|n: Seq<char>| #[trigger] own_const_sig(it.kind.members@, n) is Some
                    implies (first_impl_const(item.kind.members@, n) matches Some(c)
                        ==> (c.kind.ty != own_const_sig(it.kind.members@, n)->0.kind.ty
                            ==> reported(after_consts, const_type_error(n, c, own_const_sig(it.kind.members@, n)->0)))) by {
                    lemma_lookup_entry(reqs.consts@, n);
                    let k = choose|k: int| 0 <= k < reqs.consts@.len() && #[trigger] reqs.consts@[k].0@ == n
                        && reqs.consts@[k].1 == table_lookup(reqs.consts@, n)->0;
                    assert(visits(const_order@, k));
                    let t = choose|t: int| 0 <= t < const_order@.len() && const_order@[t] == k;
                    assert(const_order@[t] as int == k);
                }
            }
        }
        let method_order = sorted_order(&reqs.methods);
        let mut j: usize = 0;
        while j < method_order.len()
            invariant
                errors_kept(old(self).errors@, self.errors@),
                state_kept(*old(self), *self),
                0 <= j <= method_order@.len(),
                method_order@.len() == reqs.methods@.len(),
                forall|k: int| 0 <= k < method_order@.len() ==> method_order@[k] < reqs.methods@.len(),
                iname == ref_name(*interface_ref),
                errors_kept(after_consts, self.errors@),
                forall|t: int| 0 <= t < j ==> (!impl_has_method(*item, reqs.methods@[#[trigger] method_order@[t] as int].0@)
                    ==> reported(self.errors@, missing_method_error(*item, iname, reqs.methods@[method_order@[t] as int].0@))),
            decreases method_order@.len() - j,
        {
            let ghost start = self.errors@;
            let (name, required) = &reqs.methods[method_order[j]];
            let mut provided: Option<&MethodSig> = None;
            let mut m: usize = 0;
            while m < item.kind.members.len()
                invariant_except_break
                    errors_kept(old(self).errors@, self.errors@),
                    state_kept(*old(self), *self),
                    0 <= m <= item.kind.members@.len(),
                    provided is None,
                    forall|q: int| 0 <= q < m ==> !((#[trigger] item.kind.members@[q]).kind matches ImplMemberKind::Method(md)
                        && md.kind.sig.kind.name@ == name@),
                ensures
                    errors_kept(old(self).errors@, self.errors@),
                    state_kept(*old(self), *self),
                    provided is None ==> !impl_has_method(*item, name@),
                    provided is Some ==> impl_has_method(*item, name@),
                decreases item.kind.members@.len() - m,
            {
                if let ImplMemberKind::Method(md) = &item.kind.members[m].kind {
                    if crate::text::str_eq(md.kind.sig.kind.name.as_str(), name.as_str()) {
                        provided = Some(&md.kind.sig);
                        proof {
                            assert(item.kind.members@[m as int].kind matches ImplMemberKind::Method(md2)
                                && md2.kind.sig.kind.name@ == name@);
                        }
                        break;
                    }
                }
                m = m + 1;
            }
            match provided {
                None => {
                    let iname_text = path_name(&interface_ref.kind.path);
                    let mut message = cat3("impl for `", iname_text.as_str(), "` is missing method `");
                    push_string(&mut message, name);
                    push_str(&mut message, "`");
                    self.error(item.span, message);
                    proof {
                        let last = self.errors@.len() - 1;
                        assert((self.errors@[last].0, self.errors@[last].1@) == missing_method_error(*item, iname, name@));
                    }
                },
                Some(p) => {
                    if !self.method_sigs_match(required, p, &item.kind.self_ty, scope) {
                        self.error(p.span, cat3("method `", name.as_str(), "` signature does not match interface requirement"));
                    }
                },
            }
            proof {
                assert forall|t: int| 0 <= t < j + 1 implies (!impl_has_method(*item, reqs.methods@[#[trigger] method_order@[t] as int].0@)
                    ==> reported(self.errors@, missing_method_error(*item, iname, reqs.methods@[method_order@[t] as int].0@))) by {
                    if t < j && !impl_has_method(*item, reqs.methods@[method_order@[t] as int].0@) {
                        lemma_reported_kept(start, self.errors@, missing_method_error(*item, iname, reqs.methods@[method_order@[t] as int].0@));
                    }
                }
            }
            j = j + 1;
        }
        proof {
            if let Some(it) = table_lookup(old(self).interfaces@, ref_name(*interface_ref)) {
                assert forall|m: int| 0 <= m < it.kind.members@.len() implies ((#[trigger] it.kind.members@[m]).kind matches InterfaceMemberKind::Method(sig)
                    ==> (!impl_has_method(*item, sig.kind.name@)
                        ==> reported(self.errors@, missing_method_error(*item, ref_name(*interface_ref), sig.kind.name@)))) by {
                    if let InterfaceMemberKind::Method(sig) = it.kind.members@[m].kind {
                        if !impl_has_method(*item, sig.kind.name@) {
                            assert(table_has(reqs.methods@, sig.kind.name@));
                            let t = choose|t: int| 0 <= t < reqs.methods@.len() && reqs.methods@[t].0@ == sig.kind.name@;
                            assert(visits(method_order@, t));
                            let k = choose|k: int| 0 <= k < method_order@.len() && method_order@[k] == t;
                            assert(reqs.methods@[method_order@[k] as int].0@ == sig.kind.name@);
                        }
                    }
                }
                assert forall|n: Seq<char>| #[trigger] own_const_sig(it.kind.members@, n) is Some
                    implies (first_impl_const(item.kind.members@, n) matches Some(c)
                        ==> (c.kind.ty != own_const_sig(it.kind.members@, n)->0.kind.ty
                            ==> reported(self.errors@, const_type_error(n, c, own_const_sig(it.kind.members@, n)->0)))) by {
                    if let Some(c) = first_impl_const(item.kind.members@, n) {
                        if c.kind.ty != own_const_sig(it.kind.members@, n)->0.kind.ty {
                            lemma_reported_kept(after_consts, self.errors@, const_type_error(n, c, own_const_sig(it.kind.members@, n)->0));
                        }
                    }
                }
            }
        }
    }

    fn check_assoc_const_impl_expr(&mut self, item: &AssocConstImpl, scope: &GenericScope)
        ensures
            errors_kept(old(self).errors@, final(self).errors@),
            state_kept(*old(self), *final(self)),
            closed_const(item.kind.expr) && const_value(item.kind.expr) is Some && !fits_spec(const_value(item.kind.expr)->0, item.kind.ty)
                ==> final(self).errors@.len() > old(self).errors@.len() && final(self).errors@.last().0 == item.kind.expr.span,
    {
        if let Some(value) = self.eval_const_expr(&item.kind.expr, scope, EVAL_FUEL) {
            if !fits_int_ty(&value, item.kind.ty) {
                let mut message = cat3("associated const `", item.kind.name.as_str(), "` value `");
                let text = int_to_string(&value);
                push_string(&mut message, &text);
                push_str(&mut message, "` does not fit in ");
                let t = item.kind.ty.to_string();
                push_string(&mut message, &t);
                self.error(item.kind.expr.span, message);
            }
        }
    }

    fn check_impl_conflicts(&mut self)
        ensures
            old(self).impls@.len() == 0 ==> final(self).errors@ == old(self).errors@,
            errors_kept(old(self).errors@, final(self).errors@),
            state_kept(*old(self), *final(self)),
            forall|a: int, b: int| 0 <= a < b < old(self).impls@.len()
                ==> impl_conflict_reported(*(#[trigger] old(self).impls@[a]), *(#[trigger] old(self).impls@[b]), final(self).errors@),
    {
        let mut i: usize = 0;
        while i < self.impls.len()
            invariant
                self.impls@.len() == 0 ==> self.errors@ == old(self).errors@,
                errors_kept(old(self).errors@, self.errors@),
                state_kept(*old(self), *self),
                0 <= i <= self.impls@.len(),
                forall|a: int, b: int| 0 <= a < i && a < b < old(self).impls@.len()
                    ==> impl_conflict_reported(*(#[trigger] old(self).impls@[a]), *(#[trigger] old(self).impls@[b]), self.errors@),
            decreases self.impls@.len() - i,
        {
            let ghost start = self.errors@;
            let a: &'a ImplItem = self.impls[i];
            if let Some(a_interface) = &a.kind.interface {
                let mut j: usize = i + 1;
                while j < self.impls.len()
                    invariant
                        errors_kept(old(self).errors@, self.errors@),
                        errors_kept(start, self.errors@),
                        state_kept(*old(self), *self),
                        i < j <= self.impls@.len() || j == i + 1,
                        i < self.impls@.len(),
                        a == old(self).impls@[i as int],
                        a.kind.interface == Some(*a_interface),
                        forall|b: int| i < b < j && b < old(self).impls@.len()
                            ==> impl_conflict_reported(*a, *(#[trigger] old(self).impls@[b]), self.errors@),
                    decreases self.impls@.len() - j,
                {
                    let ghost before = self.errors@;
                    let b: &'a ImplItem = self.impls[j];
                    if let Some(b_interface) = &b.kind.interface {
                        let an = path_name(&a_interface.kind.path);
                        let bn = path_name(&b_interface.kind.path);
                        if crate::text::str_eq(an.as_str(), bn.as_str()) {
                            let scope = GenericScope::empty();
                            if self.ty_eq_no_diag(&a.kind.self_ty, &b.kind.self_ty, &scope, EVAL_FUEL) {
                                let mut message = cat3("conflicting impl of `", an.as_str(), "` for `");
                                let t = ty_display(&b.kind.self_ty);
                                push_string(&mut message, &t);
                                push_str(&mut message, "`");
                                self.error(b.span, message);
                                proof {
                                    let last = self.errors@.len() - 1;
                                    assert((self.errors@[last].0, self.errors@[last].1@) == (b.span, "conflicting impl of `"@
                                        + ref_name(*a_interface) + "` for `"@ + ty_text(b.kind.self_ty) + "`"@));
                                }
                            }
                        }
                    }
                    proof {
                        assert forall|q: int| i < q < j + 1 && q < old(self).impls@.len()
                            implies impl_conflict_reported(*a, *(#[trigger] old(self).impls@[q]), self.errors@) by {
                            if q < j {
                                let bq = old(self).impls@[q];
                                if bq.kind.interface is Some && ref_name(bq.kind.interface->0) == ref_name(*a_interface)
                                    && (same_primitive(a.kind.self_ty, bq.kind.self_ty) || same_nominal(a.kind.self_ty, bq.kind.self_ty)) {
                                    lemma_reported_kept(before, self.errors@, (bq.span, "conflicting impl of `"@
                                        + ref_name(*a_interface) + "` for `"@ + ty_text(bq.kind.self_ty) + "`"@));
                                }
                            }
                        }
                    }
                    j = j + 1;
                }
            }
            proof {
                assert forall|x: int, y: int| 0 <= x < i + 1 && x < y < old(self).impls@.len()
                    implies impl_conflict_reported(*(#[trigger] old(self).impls@[x]), *(#[trigger] old(self).impls@[y]), self.errors@) by {
                    if x < i {
                        let ax = old(self).impls@[x];
                        let by = old(self).impls@[y];
                        if ax.kind.interface is Some && by.kind.interface is Some
                            && ref_name(ax.kind.interface->0) == ref_name(by.kind.interface->0)
                            && (same_primitive(ax.kind.self_ty, by.kind.self_ty) || same_nominal(ax.kind.self_ty, by.kind.self_ty)) {
                            lemma_reported_kept(start, self.errors@, (by.span, "conflicting impl of `"@
                                + ref_name(ax.kind.interface->0) + "` for `"@ + ty_text(by.kind.self_ty) + "`"@));
                        }
                    }
                }
            }
            i = i + 1;
        }
    }

    fn check_fns(&mut self)
        ensures
            old(self).fns@.len() == 0 ==> final(self).errors@ == old(self).errors@,
            errors_kept(old(self).errors@, final(self).errors@),
            state_kept(*old(self), *final(self)),
            forall|t: int| 0 <= t < old(self).fns@.len() ==> interface_params_reported(*(#[trigger] old(self).fns@[t]).1,
                |n: Seq<char>| table_has(old(self).interfaces@, n), final(self).errors@),
            (evaluation_clear(*old(self)) && cache_sound(*old(self))) ==> forall|t: int| 0 <= t < old(self).fns@.len()
                ==> fn_const_predicates_reported(*(#[trigger] old(self).fns@[t]).1, old(self).const_items@, final(self).errors@),
            forall|t: int| 0 <= t < old(self).fns@.len() ==> fn_match_reported(old(self).enums@,
                *(#[trigger] old(self).fns@[t]).1, final(self).errors@),
    {
        let ghost is_interface = |n: Seq<char>| table_has(old(self).interfaces@, n);
        let ghost ready = evaluation_clear(*old(self)) && cache_sound(*old(self));
        let ghost consts = old(self).const_items@;
        let order = sorted_order(&self.fns);
        let mut i: usize = 0;
        while i < order.len()
            invariant
                order@.len() == 0 ==> self.errors@ == old(self).errors@,
                errors_kept(old(self).errors@, self.errors@),
                state_kept(*old(self), *self),
                0 <= i <= order@.len(),
                order@.len() == self.fns@.len(),
                forall|k: int| 0 <= k < order@.len() ==> order@[k] < self.fns@.len(),
                is_interface == (|n: Seq<char>| table_has(old(self).interfaces@, n)),
                forall|t: int| 0 <= t < i ==> interface_params_reported(*self.fns@[#[trigger] order@[t] as int].1,
                    is_interface, self.errors@),
                ready == (evaluation_clear(*old(self)) && cache_sound(*old(self))),
                consts == old(self).const_items@,
                ready ==> forall|t: int| 0 <= t < i ==> fn_const_predicates_reported(*self.fns@[#[trigger] order@[t] as int].1,
                    consts, self.errors@),
                forall|t: int| 0 <= t < i ==> fn_match_reported(old(self).enums@, *self.fns@[#[trigger] order@[t] as int].1,
                    self.errors@),
            decreases order@.len() - i,
        {
            let ghost start = self.errors@;
            let item: &'a FnItem = self.fns[order[i]].1;
            let scope = scope_from_generics(&item.kind.generics, &item.kind.where_predicates);
            self.check_generic_param_names(&item.kind.generics);
            let ghost before_predicates = self.errors@;
            self.check_where_predicates(&item.kind.where_predicates, &scope);
            let ghost predicates_done = self.errors@;
            proof {
                if ready {
                    assert forall|k: int| 0 <= k < item.kind.where_predicates@.len() implies
                        #[trigger] const_eq_failure_reported(item.kind.where_predicates@[k], consts, item.kind.generics@, predicates_done) by {
                        let p = item.kind.where_predicates@[k];
                        assert(const_eq_predicate_reported(p, consts, scope.const_params@, predicates_done));
                        if let WherePredicateKind::ConstEq { lhs, rhs } = p.kind {
                            if names_closed_in(lhs, consts, item.kind.generics@) && names_closed_in(rhs, consts, item.kind.generics@) {
                                lemma_names_closed_in(lhs, consts, item.kind.generics@, scope.const_params@);
                                lemma_names_closed_in(rhs, consts, item.kind.generics@, scope.const_params@);
                            }
                        }
                    }
                }
            }
            let mut locals: Vec<(String, Ty)> = Vec::new();
            let mut k: usize = 0;
            while k < item.kind.params.len()
                invariant
                    errors_kept(old(self).errors@, self.errors@),
                    errors_kept(start, self.errors@),
                    errors_kept(predicates_done, self.errors@),
                    state_kept(*old(self), *self),
                    0 <= k <= item.kind.params@.len(),
                    forall|n: Seq<char>| #[trigger] has_name(scope.type_params@, n) <==> type_param_named(item.kind.generics@, n),
                    is_interface == (|n: Seq<char>| table_has(old(self).interfaces@, n)),
                    forall|q: int| 0 <= q < k ==> #[trigger] interface_param_reported(*item, q, is_interface, self.errors@),
                    forall|n: Seq<char>| match #[trigger] param_type(item.kind.params@.take(k as int), n) {
                        Some(t) => table_lookup(locals@, n) matches Some(t2) && ty_same(t2, t),
                        None => table_lookup(locals@, n) is None,
                    },
                decreases item.kind.params@.len() - k,
            {
                let param = &item.kind.params[k];
                let ghost before = self.errors@;
                self.check_ty_wf(&param.kind.ty, &scope, false);
                proof {
                    assert forall|q: int| 0 <= q < k + 1 implies
                        #[trigger] interface_param_reported(*item, q, is_interface, self.errors@) by {
                        let ty = item.kind.params@[q].kind.ty;
                        if let TyKind::Path { path, .. } = ty.kind {
                            let name = join_segments(path.kind.segment_views());
                            if !type_param_named(item.kind.generics@, name) && is_interface(name) {
                                let e = interface_value_error(ty.span, name);
                                if q < k {
                                    assert(interface_param_reported(*item, q, is_interface, before));
                                    lemma_reported_kept(before, self.errors@, e);
                                } else {
                                    lemma_lookup_has(old(self).interfaces@, name);
                                    let last = errors_view(self.errors@).len() - 1;
                                    assert(errors_view(self.errors@)[last] == e);
                                    assert((self.errors@[last].0, self.errors@[last].1@) == e);
                                }
                            }
                        }
                    }
                }
                let ghost locals0 = locals@;
                locals_insert(&mut locals, &param.kind.name, crate::ast::clone_ty(&param.kind.ty));
                proof {
                    let ps = item.kind.params@;
                    assert(ps.take(k + 1).drop_last() =~= ps.take(k as int));
                    assert(ps.take(k + 1).last() == ps[k as int]);
                    assert forall|n: Seq<char>| match #[trigger] param_type(ps.take(k + 1), n) {
                        Some(t) => table_lookup(locals@, n) matches Some(t2) && ty_same(t2, t),
                        None => table_lookup(locals@, n) is None,
                    } by {
                        if n != ps[k as int].kind.name@ {
                            assert(param_type(ps.take(k + 1), n) == param_type(ps.take(k as int), n));
                        }
                    }
                }
                k = k + 1;
            }
            proof {
                assert(item.kind.params@.take(item.kind.params@.len() as int) =~= item.kind.params@);
            }
            let ghost params_done = self.errors@;
            self.check_ty_wf(&item.kind.ret, &scope, false);
            let ghost body_start = self.errors@;
            let ghost body_locals = locals@;
            proof {
                if fn_match_unmatched(old(self).enums@, *item) {
                    let b = item.kind.body.kind->Block_0;
                    let t = *b.kind.tail->0;
                    if let ExprKind::Match { scrutinee, arms } = t.kind {
                        if let ExprKind::Var(n) = scrutinee.kind {
                            let pt = param_type(item.kind.params@, n@)->0;
                            let lt = table_lookup(locals@, n@)->0;
                            lemma_unmatched_same(old(self).enums@, lt, pt, arms@);
                            assert(unmatched_tail(self.enums@, b, locals@));
                        }
                    }
                }
            }
            let actual = self.check_expr(&item.kind.body, &scope, &mut locals, &item.kind.ret, EVAL_FUEL);
            let ghost body_done = self.errors@;
            proof {
                if fn_match_unmatched(old(self).enums@, *item) {
                    let b = item.kind.body.kind->Block_0;
                    assert(item.kind.body.kind == ExprKind::Block(b));
                    assert(unmatched_tail(old(self).enums@, b, body_locals));
                    assert(exists|v: Seq<char>| #[trigger] reported(body_done, not_exhaustive_error(b.kind.tail->0.span, v)));
                    let v = choose|v: Seq<char>| #[trigger] reported(body_done, not_exhaustive_error(b.kind.tail->0.span, v));
                    assert(body_match_span(*item) == b.kind.tail->0.span);
                    assert(reported(body_done, not_exhaustive_error(body_match_span(*item), v)));
                }
                assert(fn_match_reported(old(self).enums@, *item, body_done));
            }
            if !actual.diverges && !self.ty_eq(&actual.ty, &item.kind.ret, &scope) {
                self.error(item.kind.body.span, named_ty_message2("function `", item.kind.name.as_str(), "` returns `", &actual.ty, "`, expected `", &item.kind.ret, "`"));
            }
            proof {
                if ready {
                    lemma_fn_const_predicates_kept(*item, consts, predicates_done, self.errors@);
                    assert forall|t: int| 0 <= t < i + 1 implies fn_const_predicates_reported(
                        *self.fns@[#[trigger] order@[t] as int].1, consts, self.errors@) by {
                        if t < i {
                            lemma_fn_const_predicates_kept(*self.fns@[order@[t] as int].1, consts, start, self.errors@);
                        }
                    }
                }
                assert(fn_match_reported(old(self).enums@, *item, body_done));
                lemma_fn_match_kept(old(self).enums@, *item, body_done, self.errors@);
                assert forall|t: int| 0 <= t < i + 1 implies fn_match_reported(old(self).enums@,
                    *self.fns@[#[trigger] order@[t] as int].1, self.errors@) by {
                    if t < i {
                        lemma_fn_match_kept(old(self).enums@, *self.fns@[order@[t] as int].1, start, self.errors@);
                    }
                }
                assert(interface_params_reported(*item, is_interface, params_done));
                lemma_interface_params_kept(*item, is_interface, params_done, self.errors@);
                assert forall|t: int| 0 <= t < i + 1 implies interface_params_reported(
                    *self.fns@[#[trigger] order@[t] as int].1, is_interface, self.errors@) by {
                    if t < i {
                        lemma_interface_params_kept(*self.fns@[order@[t] as int].1, is_interface, start, self.errors@);
                    }
                }
            }
            i = i + 1;
        }
        proof {
            assert forall|t: int| 0 <= t < old(self).fns@.len() implies interface_params_reported(
                *(#[trigger] old(self).fns@[t]).1, is_interface, self.errors@) by {
                assert(visits(order@, t));
                let k = choose|k: int| 0 <= k < order@.len() && order@[k] == t;
                assert(interface_params_reported(*self.fns@[order@[k] as int].1, is_interface, self.errors@));
            }
            assert forall|t: int| 0 <= t < old(self).fns@.len() implies fn_match_reported(old(self).enums@,
                *(#[trigger] old(self).fns@[t]).1, self.errors@) by {
                assert(visits(order@, t));
                let k = choose|k: int| 0 <= k < order@.len() && order@[k] == t;
                assert(fn_match_reported(old(self).enums@, *self.fns@[order@[k] as int].1, self.errors@));
            }
            if ready {
                assert forall|t: int| 0 <= t < old(self).fns@.len() implies fn_const_predicates_reported(
                    *(#[trigger] old(self).fns@[t]).1, consts, self.errors@) by {
                    assert(visits(order@, t));
                    let k = choose|k: int| 0 <= k < order@.len() && order@[k] == t;
                    assert(fn_const_predicates_reported(*self.fns@[order@[k] as int].1, consts, self.errors@));
                }
            }
        }
    }

    fn check_method_sig(&mut self, sig: &MethodSig, scope: &GenericScope, allow_self: bool)
        ensures
            errors_kept(old(self).errors@, final(self).errors@),
            state_kept(*old(self), *final(self)),
            forall|k: int| 0 <= k < sig.kind.params@.len() ==> interface_ty_reported((#[trigger] sig.kind.params@[k]).kind.ty,
                |n: Seq<char>| has_name(scope.type_params@, n) || type_param_named(sig.kind.generics@, n),
                old(self).interfaces@, final(self).errors@),
            interface_ty_reported(sig.kind.ret, |n: Seq<char>| has_name(scope.type_params@, n) || type_param_named(sig.kind.generics@, n),
                old(self).interfaces@, final(self).errors@),
    {
        self.check_generic_param_names(&sig.kind.generics);
        let mut method_scope = scope.copy();
        extend_scope_with_generics(&mut method_scope, &sig.kind.generics);
        let ghost is_param = |n: Seq<char>| has_name(scope.type_params@, n) || type_param_named(sig.kind.generics@, n);
        proof {
            assert(is_param =~= (|n: Seq<char>| has_name(method_scope.type_params@, n)));
        }
        let mut k: usize = 0;
        while k < sig.kind.params.len()
            invariant
                errors_kept(old(self).errors@, self.errors@),
                state_kept(*old(self), *self),
                0 <= k <= sig.kind.params@.len(),
                is_param == (|n: Seq<char>| has_name(method_scope.type_params@, n)),
                is_param == (|n: Seq<char>| has_name(scope.type_params@, n) || type_param_named(sig.kind.generics@, n)),
                forall|q: int| 0 <= q < k ==> interface_ty_reported((#[trigger] sig.kind.params@[q]).kind.ty, is_param,
                    old(self).interfaces@, self.errors@),
            decreases sig.kind.params@.len() - k,
        {
            let ghost before = self.errors@;
            self.check_ty_wf(&sig.kind.params[k].kind.ty, &method_scope, allow_self);
            proof {
                lemma_interface_ty_checked(sig.kind.params@[k as int].kind.ty, is_param, old(self).interfaces@, before, self.errors@);
                assert forall|q: int| 0 <= q < k + 1 implies interface_ty_reported((#[trigger] sig.kind.params@[q]).kind.ty,
                    is_param, old(self).interfaces@, self.errors@) by {
                    if q < k {
                        lemma_interface_ty_kept(sig.kind.params@[q].kind.ty, is_param, old(self).interfaces@, before, self.errors@);
                    }
                }
            }
            k = k + 1;
        }
        let ghost before = self.errors@;
        self.check_ty_wf(&sig.kind.ret, &method_scope, allow_self);
        proof {
            lemma_interface_ty_checked(sig.kind.ret, is_param, old(self).interfaces@, before, self.errors@);
            assert forall|q: int| 0 <= q < sig.kind.params@.len() implies interface_ty_reported((#[trigger] sig.kind.params@[q]).kind.ty,
                is_param, old(self).interfaces@, self.errors@) by {
                lemma_interface_ty_kept(sig.kind.params@[q].kind.ty, is_param, old(self).interfaces@, before, self.errors@);
            }
        }
    }

    fn check_method_body(&mut self, method: &MethodDef, self_ty: &Ty, scope: &GenericScope)
        ensures
            errors_kept(old(self).errors@, final(self).errors@),
            state_kept(*old(self), *final(self)),
            method.kind.body.kind is BoolLit && (method.kind.sig.kind.ret.kind is Unit || method.kind.sig.kind.ret.kind is Int)
                ==> reported(final(self).errors@, (method.kind.body.span, "method `"@ + method.kind.sig.kind.name@ + "` returns `"@ + "bool"@
                    + "`, expected `"@ + ty_text_with(method.kind.sig.kind.ret, ty_text(*self_ty)) + "`"@)),
    {
        let mut locals: Vec<(String, Ty)> = Vec::new();
        if let Some(receiver) = &method.kind.sig.kind.receiver {
            let ty = match receiver.kind {
                ReceiverKind::ByValue => crate::ast::clone_ty(self_ty),
                ReceiverKind::ByRef { mutability } => Node::new(receiver.span, TyKind::Ref { mutability, ty: Box::new(crate::ast::clone_ty(self_ty)) }),
            };
            locals_insert(&mut locals, &owned("self"), ty);
        }
        let mut k: usize = 0;
        while k < method.kind.sig.kind.params.len()
            invariant
                errors_kept(old(self).errors@, self.errors@),
                state_kept(*old(self), *self),
                0 <= k <= method.kind.sig.kind.params@.len(),
            decreases method.kind.sig.kind.params@.len() - k,
        {
            let param = &method.kind.sig.kind.params[k];
            locals_insert(&mut locals, &param.kind.name, substitute_self(&param.kind.ty, self_ty));
            k = k + 1;
        }
        let ret = substitute_self(&method.kind.sig.kind.ret, self_ty);
        let actual = self.check_expr(&method.kind.body, scope, &mut locals, &ret, EVAL_FUEL);
        if !actual.diverges && !self.ty_eq(&actual.ty, &ret, scope) {
            self.error(method.kind.body.span, named_ty_message2("method `", method.kind.sig.kind.name.as_str(), "` returns `", &actual.ty, "`, expected `", &ret, "`"));
            proof {
                if method.kind.body.kind is BoolLit && (method.kind.sig.kind.ret.kind is Unit || method.kind.sig.kind.ret.kind is Int) {
                    let last = self.errors@.len() - 1;
                    assert(ty_text(actual.ty) == "bool"@);
                    assert((self.errors@[last].0, self.errors@[last].1@) == (method.kind.body.span, "method `"@ + method.kind.sig.kind.name@
                        + "` returns `"@ + "bool"@ + "`, expected `"@ + ty_text_with(method.kind.sig.kind.ret, ty_text(*self_ty)) + "`"@));
                }
            }
        }
    }

    /// Checks that a type is well formed in the scope.
    fn check_ty_wf(&mut self, ty: &Ty, scope: &GenericScope, allow_self: bool)
        ensures
            errors_kept(old(self).errors@, final(self).errors@),
            state_kept(*old(self), *final(self)),
            (ty.kind is Unit || ty.kind is Bool || ty.kind is Never || ty.kind is Int)
                ==> final(self).errors@ == old(self).errors@,
            ty.kind is SelfTy && allow_self ==> final(self).errors@ == old(self).errors@,
            ty.kind is SelfTy && !allow_self ==> errors_view(final(self).errors@)
                == errors_view(old(self).errors@).push((ty.span, "`Self` is not valid in this type position"@)),
            ty.kind matches TyKind::Path { path, .. } ==> {
                let name = join_segments(path.kind.segment_views());
                &&& !has_name(scope.type_params@, name) && table_lookup(old(self).interfaces@, name) is Some
                    ==> errors_view(final(self).errors@) == errors_view(old(self).errors@).push((ty.span,
                        "interface `"@ + name + "` is not a value type; use a generic bound instead"@))
                &&& has_name(scope.type_params@, name) ==> errors_view(final(self).errors@) == errors_view(old(self).errors@)
                    + (if ty.kind->Path_args@.len() == 0 { Seq::empty() }
                        else { seq![(ty.span, "type parameter cannot take generic arguments"@)] })
                &&& (!has_name(scope.type_params@, name) && table_lookup(old(self).interfaces@, name) is None
                    && table_lookup(old(self).structs@, name) is None && table_lookup(old(self).enums@, name) is None)
                    ==> errors_view(final(self).errors@) == errors_view(old(self).errors@).push((ty.span, "unknown type `"@ + name + "`"@))
                &&& (!has_name(scope.type_params@, name) && table_lookup(old(self).interfaces@, name) is None
                    && (table_lookup(old(self).structs@, name) is Some || table_lookup(old(self).enums@, name) is Some))
                    ==> forall|k: int| 0 <= k < ty.kind->Path_args@.len()
                        && k < generic_params_named(old(self).structs@, old(self).enums@, name).len()
                        ==> const_arg_reported(generic_params_named(old(self).structs@, old(self).enums@, name)[k],
                            #[trigger] ty.kind->Path_args@[k], final(self).errors@)
                &&& (!has_name(scope.type_params@, name) && table_lookup(old(self).interfaces@, name) is None
                    && (table_lookup(old(self).structs@, name) is Some || table_lookup(old(self).enums@, name) is Some)
                    && generic_count(old(self).structs@, old(self).enums@, name) != ty.kind->Path_args@.len())
                    ==> errors_view(final(self).errors@).len() > errors_view(old(self).errors@).len()
                        && errors_view(final(self).errors@)[errors_view(old(self).errors@).len() as int] == (ty.span,
                            "type `"@ + name + "` expects "@ + crate::text::nat_decimal(generic_count(old(self).structs@, old(self).enums@, name))
                            + " generic arguments, got "@ + crate::text::nat_decimal(ty.kind->Path_args@.len()))
            },
            ty.kind matches TyKind::Array { len, .. } ==> ((closed_const(len) && const_value(len) is Some
                && const_value(len)->0 < 0)
                ==> errors_view(final(self).errors@).len() > 0
                    && errors_view(final(self).errors@).last() == (len.span, "array length must be nonnegative"@)),
        decreases ty,
    {
        match &ty.kind {
            TyKind::Unit | TyKind::Bool | TyKind::Never | TyKind::Int(_) => {},
            TyKind::SelfTy => {
                if !allow_self {
                    self.error(ty.span, owned("`Self` is not valid in this type position"));
                    proof {
                        assert(errors_view(self.errors@) =~= errors_view(old(self).errors@)
                            .push((ty.span, "`Self` is not valid in this type position"@)));
                    }
                }
            },
            TyKind::Path { path, args } => {
                let name = path_name(path);
                if contains_name(&scope.type_params, name.as_str()) {
                    if args.len() > 0 {
                        self.error(ty.span, owned("type parameter cannot take generic arguments"));
                        proof {
                            reveal_strlit("type parameter cannot take generic arguments");
                            assert(errors_view(self.errors@) =~= errors_view(old(self).errors@)
                                + seq![(ty.span, "type parameter cannot take generic arguments"@)]);
                        }
                    } else {
                        proof {
                            assert(errors_view(self.errors@) =~= errors_view(old(self).errors@) + Seq::empty());
                        }
                    }
                    return;
                }
                if table_get(&self.interfaces, name.as_str()).is_some() {
                    self.error(ty.span, cat3("interface `", name.as_str(), "` is not a value type; use a generic bound instead"));
                    proof {
                        assert(errors_view(self.errors@) =~= errors_view(old(self).errors@).push((ty.span,
                            "interface `"@ + name@ + "` is not a value type; use a generic bound instead"@)));
                    }
                    return;
                }
                let generic_params: Option<&'a Vec<GenericParam>> = match table_get(&self.structs, name.as_str()) {
                    Some(item) => Some(&item.kind.generics),
                    None => match table_get(&self.enums, name.as_str()) {
                        Some(item) => Some(&item.kind.generics),
                        None => None,
                    },
                };
                let ghost before_arity = self.errors@;
                match generic_params {
                    Some(expected) => {
                        if expected.len() != args.len() {
                            let mut message = cat3("type `", name.as_str(), "` expects ");
                            push_usize(&mut message, expected.len());
                            push_str(&mut message, " generic arguments, got ");
                            push_usize(&mut message, args.len());
                            self.error(ty.span, message);
                            proof {
                                assert(errors_view(self.errors@)[before_arity.len() as int] == (self.errors@[before_arity.len() as int].0,
                                    self.errors@[before_arity.len() as int].1@));
                            }
                        }
                    },
                    None => {
                        self.error(ty.span, cat3("unknown type `", name.as_str(), "`"));
                        proof {
                            assert(errors_view(self.errors@) =~= errors_view(old(self).errors@)
                                .push((ty.span, "unknown type `"@ + name@ + "`"@)));
                        }
                    },
                }
                if let Some(generic_params) = generic_params {
                    self.check_ty_args(args, generic_params, scope);
                }
            },
            TyKind::Array { elem, len } => {
                self.check_ty_wf(elem, scope, false);
                if let Some(value) = self.eval_const_expr(len, scope, EVAL_FUEL) {
                    if value.is_negative() {
                        self.error(len.span, owned("array length must be nonnegative"));
                        proof {
                            let e = errors_view(self.errors@);
                            assert(e.last() == (self.errors@.last().0, self.errors@.last().1@));
                        }
                    }
                }
            },
            TyKind::Ref { ty: inner, .. } => self.check_ty_wf(inner, scope, allow_self),
            TyKind::Fn { params, ret } => {
                self.check_tys_wf(params, scope, allow_self);
                self.check_ty_wf(ret, scope, allow_self);
            },
        }
    }

    fn check_tys_wf(&mut self, tys: &Vec<Ty>, scope: &GenericScope, allow_self: bool)
        ensures
            errors_kept(old(self).errors@, final(self).errors@),
            state_kept(*old(self), *final(self)),
            forall|k: int| 0 <= k < tys@.len() ==> interface_ty_reported(#[trigger] tys@[k],
                |n: Seq<char>| has_name(scope.type_params@, n), old(self).interfaces@, final(self).errors@),
        decreases tys,
    {
        let ghost is_param = |n: Seq<char>| has_name(scope.type_params@, n);
        let mut i: usize = 0;
        while i < tys.len()
            invariant
                errors_kept(old(self).errors@, self.errors@),
                state_kept(*old(self), *self),
                0 <= i <= tys@.len(),
                is_param == (|n: Seq<char>| has_name(scope.type_params@, n)),
                forall|k: int| 0 <= k < i ==> #[trigger] interface_ty_reported(tys@[k], is_param, old(self).interfaces@, self.errors@),
            decreases tys@.len() - i,
        {
            let ghost before = self.errors@;
            self.check_ty_wf(&tys[i], scope, allow_self);
            proof {
                lemma_interface_ty_checked(tys@[i as int], is_param, old(self).interfaces@, before, self.errors@);
                assert forall|k: int| 0 <= k < i + 1 implies #[trigger] interface_ty_reported(tys@[k], is_param,
                    old(self).interfaces@, self.errors@) by {
                    if k < i {
                        lemma_interface_ty_kept(tys@[k], is_param, old(self).interfaces@, before, self.errors@);
                    }
                }
            }
            i = i + 1;
        }
    }

    /// Checks generic arguments against the parameters they are given to.
    fn check_ty_args(&mut self, args: &Vec<GenericArg>, generic_params: &Vec<GenericParam>, scope: &GenericScope)
        ensures
            errors_kept(old(self).errors@, final(self).errors@),
            state_kept(*old(self), *final(self)),
            forall|k: int| 0 <= k < args@.len() && k < generic_params@.len()
                ==> arg_kind_reported(generic_params@[k], #[trigger] args@[k], final(self).errors@),
            forall|k: int| 0 <= k < args@.len() && k < generic_params@.len()
                ==> const_arg_reported(generic_params@[k], #[trigger] args@[k], final(self).errors@),
        decreases args,
    {
        let mut i: usize = 0;
        while i < args.len() && i < generic_params.len()
            invariant
                errors_kept(old(self).errors@, self.errors@),
                state_kept(*old(self), *self),
                0 <= i <= args@.len(),
                forall|k: int| 0 <= k < i && k < generic_params@.len()
                    ==> arg_kind_reported(generic_params@[k], #[trigger] args@[k], self.errors@),
                forall|k: int| 0 <= k < i && k < generic_params@.len()
                    ==> const_arg_reported(generic_params@[k], #[trigger] args@[k], self.errors@),
            decreases args@.len() - i,
        {
            let ghost before = self.errors@;
            let arg = &args[i];
            match (&generic_params[i].kind, &arg.kind) {
                (GenericParamKind::Type { .. }, GenericArgKind::Ty(t)) => {
                    self.check_ty_wf(t, scope, false);
                },
                (GenericParamKind::Type { name, .. }, GenericArgKind::Const(_)) => {
                    self.error(arg.span, cat3("generic parameter `", name.as_str(), "` expects a type argument"));
                },
                (GenericParamKind::Const { name, ty }, GenericArgKind::Const(expr)) => {
                    self.check_const_arg(expr, *ty, name, scope);
                },
                (GenericParamKind::Const { name, ty }, GenericArgKind::Ty(ty_arg)) => {
                    match ty_arg_as_const_expr(ty_arg) {
                        Some(expr) => self.check_const_arg(&expr, *ty, name, scope),
                        None => {
                            self.error(arg.span, cat3("generic parameter `", name.as_str(), "` expects a const argument"));
                        },
                    }
                },
            }
            proof {
                let e1 = (args@[i as int].span, "generic parameter `"@ + generic_params@[i as int].kind->Type_name@ + "` expects a type argument"@);
                let e2 = (args@[i as int].span, "generic parameter `"@ + generic_params@[i as int].kind->Const_name@ + "` expects a const argument"@);
                if generic_params@[i as int].kind is Type && args@[i as int].kind is Const {
                    let last = before.len() as int;
                    assert((self.errors@[last].0, self.errors@[last].1@) == e1);
                }
                if generic_params@[i as int].kind is Const && (args@[i as int].kind matches GenericArgKind::Ty(t)
                    && !(t.kind matches TyKind::Path { args, .. } && args@.len() == 0)) {
                    let last = self.errors@.len() - 1;
                    assert((self.errors@[last].0, self.errors@[last].1@) == e2);
                }
                assert forall|k: int| 0 <= k < i + 1 && k < generic_params@.len()
                    implies arg_kind_reported(generic_params@[k], #[trigger] args@[k], self.errors@) by {
                    if k < i {
                        let p = generic_params@[k];
                        let a = args@[k];
                        if p.kind is Type && a.kind is Const {
                            lemma_reported_kept(before, self.errors@, (a.span, "generic parameter `"@ + p.kind->Type_name@ + "` expects a type argument"@));
                        }
                        if p.kind is Const && (a.kind matches GenericArgKind::Ty(t) && !(t.kind matches TyKind::Path { args, .. } && args@.len() == 0)) {
                            lemma_reported_kept(before, self.errors@, (a.span, "generic parameter `"@ + p.kind->Const_name@ + "` expects a const argument"@));
                        }
                    }
                }
                assert forall|k: int| 0 <= k < i + 1 && k < generic_params@.len()
                    implies const_arg_reported(generic_params@[k], #[trigger] args@[k], self.errors@) by {
                    if k < i {
                        let p = generic_params@[k];
                        let a = args@[k];
                        if p.kind is Const && a.kind is Const && closed_const(a.kind->Const_0) && const_value(a.kind->Const_0) is Some
                            && !fits_spec(const_value(a.kind->Const_0)->0, p.kind->Const_ty) {
                            lemma_reported_kept(before, self.errors@, const_arg_error(a.kind->Const_0.span, p.kind->Const_name@,
                                const_value(a.kind->Const_0)->0, p.kind->Const_ty));
                        }
                    }
                }
            }
            i = i + 1;
        }
    }

    fn check_const_arg(&mut self, expr: &ConstExpr, ty: IntTy, name: &String, scope: &GenericScope)
        ensures
            errors_kept(old(self).errors@, final(self).errors@),
            state_kept(*old(self), *final(self)),
            closed_const(*expr) && const_value(*expr) is Some && !fits_spec(const_value(*expr)->0, ty)
                ==> final(self).errors@.len() > old(self).errors@.len() && final(self).errors@.last().0 == expr.span
                    && reported(final(self).errors@, const_arg_error(expr.span, name@, const_value(*expr)->0, ty)),
    {
        if let Some(value) = self.eval_const_expr(expr, scope, EVAL_FUEL) {
            if !fits_int_ty(&value, ty) {
                let mut message = cat3("const argument for `", name.as_str(), "` has value `");
                let text = int_to_string(&value);
                push_string(&mut message, &text);
                push_str(&mut message, "` which does not fit in ");
                let t = ty.to_string();
                push_string(&mut message, &t);
                self.error(expr.span, message);
                proof {
                    let last = self.errors@.len() - 1;
                    assert((self.errors@[last].0, self.errors@[last].1@) == const_arg_error(expr.span, name@, value@, ty));
                }
            }
        }
    }

    fn check_where_predicates(&mut self, predicates: &Vec<WherePredicate>, scope: &GenericScope)
        ensures
            errors_kept(old(self).errors@, final(self).errors@),
            state_kept(*old(self), *final(self)),
            (evaluation_clear(*old(self)) && cache_sound(*old(self))) ==> forall|k: int| 0 <= k < predicates@.len()
                ==> const_eq_predicate_reported(#[trigger] predicates@[k], old(self).const_items@, scope.const_params@, final(self).errors@),
    {
        let ghost consts = self.const_items@;
        let ghost ready = evaluation_clear(*self) && cache_sound(*self);
        let mut i: usize = 0;
        while i < predicates.len()
            invariant
                errors_kept(old(self).errors@, self.errors@),
                state_kept(*old(self), *self),
                0 <= i <= predicates@.len(),
                consts == old(self).const_items@,
                ready == (evaluation_clear(*old(self)) && cache_sound(*old(self))),
                ready ==> forall|k: int| 0 <= k < i ==> const_eq_predicate_reported(#[trigger] predicates@[k], consts, scope.const_params@, self.errors@),
            decreases predicates@.len() - i,
        {
            let ghost before = self.errors@;
            let predicate = &predicates[i];
            match &predicate.kind {
                WherePredicateKind::Implements { ty, interface } => {
                    self.check_ty_wf(ty, scope, false);
                    self.check_interface_ref(interface, scope);
                },
                WherePredicateKind::ConstEq { lhs, rhs } => {
                    let lhs_value = self.eval_const_expr(lhs, scope, EVAL_FUEL);
                    let rhs_value = self.eval_const_expr(rhs, scope, EVAL_FUEL);
                    if let (Some(l), Some(r)) = (lhs_value, rhs_value) {
                        if !int_eq(&l, &r) {
                            let mut message = owned("const equality predicate failed: `");
                            let a = int_to_string(&l);
                            push_string(&mut message, &a);
                            push_str(&mut message, "` != `");
                            let b = int_to_string(&r);
                            push_string(&mut message, &b);
                            push_str(&mut message, "`");
                            self.error(predicate.span, message);
                            proof {
                                let last = self.errors@.len() - 1;
                                assert((self.errors@[last].0, self.errors@[last].1@) == const_eq_error(predicate.span, l@, r@));
                            }
                        }
                    }
                },
            }
            proof {
                if ready {
                    assert forall|k: int| 0 <= k < i + 1 implies const_eq_predicate_reported(#[trigger] predicates@[k], consts, scope.const_params@, self.errors@) by {
                        let p = predicates@[k];
                        if let WherePredicateKind::ConstEq { lhs, rhs } = p.kind {
                            if names_closed_consts(lhs, consts, scope.const_params@) && names_closed_consts(rhs, consts, scope.const_params@)
                                && const_value_with(lhs, consts) is Some && const_value_with(rhs, consts) is Some
                                && const_value_with(lhs, consts) != const_value_with(rhs, consts) {
                                let e = const_eq_error(p.span, const_value_with(lhs, consts)->0, const_value_with(rhs, consts)->0);
                                if k < i {
                                    assert(const_eq_predicate_reported(p, consts, scope.const_params@, before));
                                    lemma_reported_kept(before, self.errors@, e);
                                }
                            }
                        }
                    }
                }
            }
            i = i + 1;
        }
    }

    fn check_interface_ref(&mut self, interface: &InterfaceRef, scope: &GenericScope)
        ensures
            errors_kept(old(self).errors@, final(self).errors@),
            state_kept(*old(self), *final(self)),
            table_lookup(old(self).interfaces@, ref_name(*interface)) is None ==> final(self).errors@.len() > old(self).errors@.len()
                && final(self).errors@[old(self).errors@.len() as int].0 == interface.span
                && final(self).errors@[old(self).errors@.len() as int].1@ == "unknown interface `"@ + ref_name(*interface) + "`"@,
            table_lookup(old(self).interfaces@, ref_name(*interface)) matches Some(item)
                ==> (item.kind.generics@.len() != interface.kind.args@.len() ==> final(self).errors@.len() > old(self).errors@.len()
                    && final(self).errors@[old(self).errors@.len() as int].0 == interface.span),
    {
        let name = path_name(&interface.kind.path);
        match table_get(&self.interfaces, name.as_str()) {
            Some(item) => {
                let expected = item.kind.generics.len();
                if expected != interface.kind.args.len() {
                    let mut message = cat3("interface `", name.as_str(), "` expects ");
                    push_usize(&mut message, expected);
                    push_str(&mut message, " generic arguments, got ");
                    push_usize(&mut message, interface.kind.args.len());
                    self.error(interface.span, message);
                }
            },
            None => {
                self.error(interface.span, cat3("unknown interface `", name.as_str(), "`"));
            },
        }
        let ghost mid = self.errors@;
        let mut i: usize = 0;
        while i < interface.kind.args.len()
            invariant
                errors_kept(old(self).errors@, self.errors@),
                errors_kept(mid, self.errors@),
                state_kept(*old(self), *self),
                0 <= i <= interface.kind.args@.len(),
            decreases interface.kind.args@.len() - i,
        {
            match &interface.kind.args[i].kind {
                GenericArgKind::Ty(t) => self.check_ty_wf(t, scope, false),
                GenericArgKind::Const(expr) => {
                    self.eval_const_expr(expr, scope, EVAL_FUEL);
                },
            }
            i = i + 1;
        }
    }

    /// The requirements of an interface, reporting inheritance cycles and
    /// conflicting inherited members.
    fn interface_reqs_checked(&mut self, interface: &InterfaceRef, stack: &mut Vec<String>, scope: &GenericScope, fuel: u64) -> (r: Option<InterfaceReqs<'a>>)
        ensures
            errors_kept(old(self).errors@, final(self).errors@),
            state_kept(*old(self), *final(self)),
            final(stack)@ == old(stack)@,
            open_paths_reported(old(self).interfaces@, old(stack)@, ref_name(*interface), fuel as int, final(self).errors@),
        decreases fuel,
    {
        let name = path_name(&interface.kind.path);
        let ghost table = self.interfaces@;
        let ghost stack0 = stack@;
        if contains_name(stack, name.as_str()) {
            self.error(interface.span, cat3("interface inheritance cycle involving `", name.as_str(), "`"));
            proof {
                assert forall|q: Seq<Seq<char>>| #[trigger] open_path(table, stack0, q) && q[0] == name@ && q.len() - 1 <= fuel
                    implies cycle_reported(self.errors@, q.last()) by {
                    assert(q.len() == 1);
                    let last = self.errors@.len() - 1;
                    assert(self.errors@[last].1@ == cycle_message(name@));
                }
            }
            return None;
        }
        let found = table_get(&self.interfaces, name.as_str());
        if found.is_none() || fuel == 0 {
            proof {
                assert forall|q: Seq<Seq<char>>| #[trigger] open_path(table, stack0, q) && q[0] == name@ && q.len() - 1 <= fuel
                    implies cycle_reported(self.errors@, q.last()) by {
                    if q.len() == 1 {
                        assert(!q.drop_last().contains(q.last()));
                    } else {
                        lemma_inherits_step(table, q, 0);
                    }
                }
            }
            return None;
        }
        let item = found.unwrap();
        let ghost name_string = name;
        stack.push(name);
        let ghost opened = stack@;
        proof {
            assert(opened == stack0.push(name_string));
        }
        let mut reqs = InterfaceReqs { methods: Vec::new(), consts: Vec::new() };
        let mut i: usize = 0;
        while i < item.kind.super_interfaces.len()
            invariant
                errors_kept(old(self).errors@, self.errors@),
                state_kept(*old(self), *self),
                0 <= i <= item.kind.super_interfaces@.len(),
                fuel > 0,
                stack@ == opened,
                table == old(self).interfaces@,
                forall|k: int| 0 <= k < i ==> open_paths_reported(table, opened,
                    ref_name(#[trigger] item.kind.super_interfaces@[k]), fuel - 1, self.errors@),
            decreases item.kind.super_interfaces@.len() - i,
        {
            let super_interface = &item.kind.super_interfaces[i];
            let ghost before = self.errors@;
            let found_parent = self.interface_reqs_checked(super_interface, stack, scope, fuel - 1);
            let ghost after_call = self.errors@;
            if let Some(parent) = found_parent {
                self.merge_interface_reqs(&mut reqs, &parent, super_interface.span, scope);
            }
            proof {
                assert forall|k: int| 0 <= k < i + 1 implies open_paths_reported(table, opened,
                    ref_name(#[trigger] item.kind.super_interfaces@[k]), fuel - 1, self.errors@) by {
                    if k < i {
                        lemma_open_paths_kept(table, opened, ref_name(item.kind.super_interfaces@[k]), fuel - 1, before, self.errors@);
                    } else {
                        lemma_open_paths_kept(table, opened, ref_name(item.kind.super_interfaces@[k]), fuel - 1, after_call, self.errors@);
                    }
                }
            }
            i = i + 1;
        }
        let ghost searched = self.errors@;
        let mut m: usize = 0;
        while m < item.kind.members.len()
            invariant
                errors_kept(old(self).errors@, self.errors@),
                errors_kept(searched, self.errors@),
                state_kept(*old(self), *self),
                0 <= m <= item.kind.members@.len(),
            decreases item.kind.members@.len() - m,
        {
            match &item.kind.members[m].kind {
                InterfaceMemberKind::Method(sig) => {
                    self.insert_method_req(&mut reqs, sig, sig.span, scope);
                },
                InterfaceMemberKind::AssocConst(sig) => {
                    self.insert_const_req(&mut reqs, sig, sig.span);
                },
            }
            m = m + 1;
        }
        stack.pop();
        proof {
            assert(stack@ =~= stack0);
            assert forall|q: Seq<Seq<char>>| #[trigger] open_path(table, stack0, q) && q[0] == name@ && q.len() - 1 <= fuel
                implies cycle_reported(self.errors@, q.last()) by {
                if q.len() == 1 {
                    assert(!q.drop_last().contains(q.last()));
                }
                lemma_inherits_step(table, q, 0);
                let k = choose|k: int| 0 <= k < item.kind.super_interfaces@.len()
                    && ref_name(#[trigger] item.kind.super_interfaces@[k]) == q[1];
                let q2 = q.drop_first();
                assert forall|j: int| 0 <= j < q2.len() - 1 implies #[trigger] inherits(table, q2[j], q2[j + 1]) by {
                    lemma_inherits_step(table, q, j + 1);
                }
                assert(q2.drop_last() =~= q.drop_last().drop_first());
                assert forall|j: int| 0 <= j < q2.len() - 1 implies !has_name(opened, #[trigger] q2[j]) by {
                    lemma_has_name_push(stack0, name_string, q2[j]);
                    assert(q.drop_last()[0] != q.drop_last()[j + 1]);
                    assert(!has_name(stack0, q[j + 1]));
                }
                lemma_has_name_push(stack0, name_string, q.last());
                if !has_name(stack0, q.last()) {
                    let w = choose|w: int| 0 <= w < q.drop_last().len() && q.drop_last()[w] == q.last();
                    if w > 0 {
                        assert(q2.drop_last()[w - 1] == q.last());
                    }
                }
                assert(open_path(table, opened, q2));
                assert(open_paths_reported(table, opened, ref_name(item.kind.super_interfaces@[k]), fuel - 1, searched));
                assert(cycle_reported(searched, q2.last()));
                let e = choose|e: int| 0 <= e < searched.len() && searched[e].1@ == cycle_message(q2.last());
                assert(self.errors@[e] == searched[e]);
            }
        }
        Some(reqs)
    }

    fn merge_interface_reqs(&mut self, dst: &mut InterfaceReqs<'a>, src: &InterfaceReqs<'a>, span: Span, scope: &GenericScope)
        ensures
            errors_kept(old(self).errors@, final(self).errors@),
            state_kept(*old(self), *final(self)),
            forall|n: Seq<char>| table_has(old(dst).methods@, n) ==> #[trigger] table_has(final(dst).methods@, n),
            forall|n: Seq<char>| table_has(old(dst).consts@, n) ==> #[trigger] table_has(final(dst).consts@, n),
            forall|k: int| 0 <= k < src.methods@.len() ==> table_has(final(dst).methods@, (#[trigger] src.methods@[k]).1.kind.name@),
            forall|k: int| 0 <= k < src.consts@.len() ==> table_has(final(dst).consts@, (#[trigger] src.consts@[k]).1.kind.name@),
    {
        let mut i: usize = 0;
        while i < src.methods.len()
            invariant
                errors_kept(old(self).errors@, self.errors@),
                state_kept(*old(self), *self),
                0 <= i <= src.methods@.len(),
                dst.consts == old(dst).consts,
                forall|n: Seq<char>| table_has(old(dst).methods@, n) ==> #[trigger] table_has(dst.methods@, n),
                forall|k: int| 0 <= k < i ==> table_has(dst.methods@, (#[trigger] src.methods@[k]).1.kind.name@),
            decreases src.methods@.len() - i,
        {
            let ghost before = dst.methods@;
            self.insert_method_req(dst, src.methods[i].1, span, scope);
            proof {
                let name = src.methods@[i as int].1.kind.name@;
                lemma_lookup_has(dst.methods@, name);
                assert forall|n: Seq<char>| table_has(before, n) implies #[trigger] table_has(dst.methods@, n) by {
                    lemma_lookup_has(before, n);
                    lemma_lookup_has(dst.methods@, n);
                }
            }
            i = i + 1;
        }
        let mut j: usize = 0;
        while j < src.consts.len()
            invariant
                errors_kept(old(self).errors@, self.errors@),
                state_kept(*old(self), *self),
                0 <= j <= src.consts@.len(),
                forall|n: Seq<char>| table_has(old(dst).methods@, n) ==> #[trigger] table_has(dst.methods@, n),
                forall|k: int| 0 <= k < src.methods@.len() ==> table_has(dst.methods@, (#[trigger] src.methods@[k]).1.kind.name@),
                forall|n: Seq<char>| table_has(old(dst).consts@, n) ==> #[trigger] table_has(dst.consts@, n),
                forall|k: int| 0 <= k < j ==> table_has(dst.consts@, (#[trigger] src.consts@[k]).1.kind.name@),
            decreases src.consts@.len() - j,
        {
            let ghost before = dst.consts@;
            self.insert_const_req(dst, src.consts[j].1, span);
            proof {
                let name = src.consts@[j as int].1.kind.name@;
                lemma_lookup_has(dst.consts@, name);
                lemma_lookup_has(before, name);
                assert forall|n: Seq<char>| table_has(before, n) implies #[trigger] table_has(dst.consts@, n) by {
                    lemma_lookup_has(before, n);
                    lemma_lookup_has(dst.consts@, n);
                }
            }
            j = j + 1;
        }
    }

    fn insert_method_req(&mut self, reqs: &mut InterfaceReqs<'a>, sig: &'a MethodSig, span: Span, scope: &GenericScope)
        ensures
            errors_kept(old(self).errors@, final(self).errors@),
            state_kept(*old(self), *final(self)),
            final(reqs).consts == old(reqs).consts,
            table_has(old(reqs).methods@, sig.kind.name@) ==> final(reqs).methods == old(reqs).methods
                && (final(self).errors@ == old(self).errors@ || errors_view(final(self).errors@)
                    == errors_view(old(self).errors@).push((span, "conflicting inherited method `"@ + sig.kind.name@ + "`"@))),
            table_lookup(old(reqs).methods@, sig.kind.name@) matches Some(e) ==> ((simple_ty(e.kind.ret)
                && !(e.kind.ret.kind == sig.kind.ret.kind || sig.kind.ret.kind is Never))
                ==> errors_view(final(self).errors@) == errors_view(old(self).errors@)
                    .push((span, "conflicting inherited method `"@ + sig.kind.name@ + "`"@))),
            !table_has(old(reqs).methods@, sig.kind.name@) ==> final(self).errors@ == old(self).errors@
                && table_lookup(final(reqs).methods@, sig.kind.name@) == Some(sig)
                && forall|n: Seq<char>| n != sig.kind.name@ ==> #[trigger] table_lookup(final(reqs).methods@, n)
                    == table_lookup(old(reqs).methods@, n),
    {
        proof {
            lemma_lookup_has(reqs.methods@, sig.kind.name@);
        }
        if let Some(existing) = table_get(&reqs.methods, sig.kind.name.as_str()) {
            if !self.method_sigs_equivalent(existing, sig, scope) {
                let ghost before = self.errors@;
                self.error(span, cat3("conflicting inherited method `", sig.kind.name.as_str(), "`"));
                proof {
                    assert(errors_view(self.errors@) =~= errors_view(before).push((span,
                        "conflicting inherited method `"@ + sig.kind.name@ + "`"@)));
                }
            }
            return;
        }
        table_insert(&mut reqs.methods, &sig.kind.name, sig);
    }

    fn insert_const_req(&mut self, reqs: &mut InterfaceReqs<'a>, sig: &'a AssocConstSig, span: Span)
        ensures
            errors_kept(old(self).errors@, final(self).errors@),
            state_kept(*old(self), *final(self)),
            final(reqs).methods == old(reqs).methods,
            table_lookup(old(reqs).consts@, sig.kind.name@) matches Some(existing) ==> final(reqs).consts == old(reqs).consts
                && (existing.kind.ty == sig.kind.ty ==> final(self).errors@ == old(self).errors@)
                && (existing.kind.ty != sig.kind.ty ==> errors_view(final(self).errors@) == errors_view(old(self).errors@)
                    .push((span, "conflicting inherited associated const `"@ + sig.kind.name@ + "`"@))),
            table_lookup(old(reqs).consts@, sig.kind.name@) is None ==> final(self).errors@ == old(self).errors@
                && table_lookup(final(reqs).consts@, sig.kind.name@) == Some(sig)
                && forall|n: Seq<char>| n != sig.kind.name@ ==> #[trigger] table_lookup(final(reqs).consts@, n)
                    == table_lookup(old(reqs).consts@, n),
    {
        if let Some(existing) = table_get(&reqs.consts, sig.kind.name.as_str()) {
            if existing.kind.ty != sig.kind.ty {
                let ghost before = self.errors@;
                self.error(span, cat3("conflicting inherited associated const `", sig.kind.name.as_str(), "`"));
                proof {
                    assert(errors_view(self.errors@) =~= errors_view(before).push((span,
                        "conflicting inherited associated const `"@ + sig.kind.name@ + "`"@)));
                }
            }
            return;
        }
        table_insert(&mut reqs.consts, &sig.kind.name, sig);
    }

    /// Whether an impl's method has the signature the interface requires,
    /// with `Self` standing for the impl's type.
    fn method_sigs_match(&mut self, required: &MethodSig, provided: &MethodSig, self_ty: &Ty, scope: &GenericScope) -> (r: bool)
        ensures
            errors_kept(old(self).errors@, final(self).errors@),
            state_kept(*old(self), *final(self)),
            r ==> match (required.kind.receiver, provided.kind.receiver) {
                (Some(x), Some(y)) => x.kind == y.kind,
                (None, None) => true,
                _ => false,
            },
            r ==> required.kind.params@.len() == provided.kind.params@.len(),
            (required.kind.receiver is None && provided.kind.receiver is None
                && required.kind.params@.len() == provided.kind.params@.len()
                && (forall|k: int| 0 <= k < required.kind.params@.len()
                    ==> same_primitive((#[trigger] required.kind.params@[k]).kind.ty, provided.kind.params@[k].kind.ty))
                && same_primitive(required.kind.ret, provided.kind.ret)) ==> r,
    {
        if !receivers_match(&required.kind.receiver, &provided.kind.receiver) {
            return false;
        }
        if required.kind.params.len() != provided.kind.params.len() {
            return false;
        }
        let mut i: usize = 0;
        while i < required.kind.params.len()
            invariant
                errors_kept(old(self).errors@, self.errors@),
                state_kept(*old(self), *self),
                0 <= i <= required.kind.params@.len(),
                required.kind.params@.len() == provided.kind.params@.len(),
            decreases required.kind.params@.len() - i,
        {
            let a = substitute_self(&required.kind.params[i].kind.ty, self_ty);
            let b = substitute_self(&provided.kind.params[i].kind.ty, self_ty);
            if !self.ty_eq(&a, &b, scope) {
                return false;
            }
            i = i + 1;
        }
        let a = substitute_self(&required.kind.ret, self_ty);
        let b = substitute_self(&provided.kind.ret, self_ty);
        self.ty_eq(&a, &b, scope)
    }

    /// Whether two inherited method signatures are the same.
    fn method_sigs_equivalent(&self, a: &MethodSig, b: &MethodSig, scope: &GenericScope) -> (r: bool)
        ensures
            r ==> match (a.kind.receiver, b.kind.receiver) {
                (Some(x), Some(y)) => x.kind == y.kind,
                (None, None) => true,
                _ => false,
            },
            r ==> a.kind.params@.len() == b.kind.params@.len(),
            r ==> a.kind.generics@.len() == b.kind.generics@.len()
                && forall|k: int| 0 <= k < a.kind.generics@.len() ==> generic_params_alike(#[trigger] a.kind.generics@[k], b.kind.generics@[k]),
            r ==> (simple_ty(a.kind.ret) ==> (a.kind.ret.kind == b.kind.ret.kind || b.kind.ret.kind is Never)),
            (a.kind.receiver is None && b.kind.receiver is None && a.kind.generics@.len() == 0 && b.kind.generics@.len() == 0
                && a.kind.params@.len() == b.kind.params@.len()
                && (forall|k: int| 0 <= k < a.kind.params@.len() ==> same_primitive((#[trigger] a.kind.params@[k]).kind.ty, b.kind.params@[k].kind.ty))
                && same_primitive(a.kind.ret, b.kind.ret)) ==> r,
    {
        if !receivers_match(&a.kind.receiver, &b.kind.receiver) {
            return false;
        }
        if !self.generic_params_equivalent(&a.kind.generics, &b.kind.generics, scope) {
            return false;
        }
        if a.kind.params.len() != b.kind.params.len() {
            return false;
        }
        let mut i: usize = 0;
        while i < a.kind.params.len()
            invariant
                0 <= i <= a.kind.params@.len(),
                a.kind.params@.len() == b.kind.params@.len(),
            decreases a.kind.params@.len() - i,
        {
            if !self.ty_eq_no_diag(&a.kind.params[i].kind.ty, &b.kind.params[i].kind.ty, scope, EVAL_FUEL) {
                return false;
            }
            i = i + 1;
        }
        self.ty_eq_no_diag(&a.kind.ret, &b.kind.ret, scope, EVAL_FUEL)
    }

    fn generic_params_equivalent(&self, a: &Vec<GenericParam>, b: &Vec<GenericParam>, scope: &GenericScope) -> (r: bool)
        ensures
            r ==> a@.len() == b@.len() && forall|k: int| 0 <= k < a@.len() ==> generic_params_alike(#[trigger] a@[k], b@[k]),
            a@.len() == 0 && b@.len() == 0 ==> r,
    {
        if a.len() != b.len() {
            return false;
        }
        let mut i: usize = 0;
        while i < a.len()
            invariant
                0 <= i <= a@.len(),
                a@.len() == b@.len(),
                forall|k: int| 0 <= k < i ==> generic_params_alike(#[trigger] a@[k], b@[k]),
            decreases a@.len() - i,
        {
            let same = match (&a[i].kind, &b[i].kind) {
                (GenericParamKind::Type { name: an, bounds: ab }, GenericParamKind::Type { name: bn, bounds: bb }) => {
                    if !crate::text::str_eq(an.as_str(), bn.as_str()) || ab.len() != bb.len() {
                        false
                    } else {
                        let mut all = true;
                        let mut k: usize = 0;
                        while k < ab.len()
                            invariant
                                0 <= k <= ab@.len(),
                                ab@.len() == bb@.len(),
                            decreases ab@.len() - k,
                        {
                            if !self.interface_refs_equivalent(&ab[k], &bb[k], scope) {
                                all = false;
                                break;
                            }
                            k = k + 1;
                        }
                        all
                    }
                },
                (GenericParamKind::Const { name: an, ty: at }, GenericParamKind::Const { name: bn, ty: bt }) => {
                    crate::text::str_eq(an.as_str(), bn.as_str()) && *at == *bt
                },
                _ => false,
            };
            if !same {
                return false;
            }
            i = i + 1;
        }
        true
    }

    fn interface_refs_equivalent(&self, a: &InterfaceRef, b: &InterfaceRef, scope: &GenericScope) -> (r: bool)
        ensures
            r ==> ref_name(*a) == ref_name(*b) && a.kind.args@.len() == b.kind.args@.len(),
            r ==> forall|k: int| 0 <= k < a.kind.args@.len() ==> ((#[trigger] a.kind.args@[k]).kind is Ty) == (b.kind.args@[k].kind is Ty),
            ref_name(*a) == ref_name(*b) && a.kind.args@.len() == 0 && b.kind.args@.len() == 0 ==> r,
    {
        let an = path_name(&a.kind.path);
        let bn = path_name(&b.kind.path);
        if !crate::text::str_eq(an.as_str(), bn.as_str()) || a.kind.args.len() != b.kind.args.len() {
            return false;
        }
        let mut i: usize = 0;
        while i < a.kind.args.len()
            invariant
                0 <= i <= a.kind.args@.len(),
                a.kind.args@.len() == b.kind.args@.len(),
                forall|k: int| 0 <= k < i ==> ((#[trigger] a.kind.args@[k]).kind is Ty) == (b.kind.args@[k].kind is Ty),
            decreases a.kind.args@.len() - i,
        {
            let same = match (&a.kind.args[i].kind, &b.kind.args[i].kind) {
                (GenericArgKind::Ty(x), GenericArgKind::Ty(y)) => self.ty_eq_no_diag(x, y, scope, EVAL_FUEL),
                (GenericArgKind::Const(x), GenericArgKind::Const(y)) => self.const_eq_no_diag(x, y, scope),
                _ => false,
            };
            if !same {
                return false;
            }
            i = i + 1;
        }
        true
    }

    fn const_eq_no_diag(&self, a: &ConstExpr, b: &ConstExpr, scope: &GenericScope) -> (r: bool)
        ensures
            closed_const(*a) && closed_const(*b) && const_value(*a) is Some && const_value(*b) is Some
                ==> r == (const_value(*a) == const_value(*b)),
            closed_const(*a) && closed_const(*b) && (const_value(*a) is Some) != (const_value(*b) is Some) ==> !r,
    {
        let mut checker = self.checker_for_compare();
        checker.const_eq(a, b, scope, false, EVAL_FUEL)
    }

    /// Reports each generic parameter whose name an earlier one already has.
    fn check_generic_param_names(&mut self, generics: &Vec<GenericParam>)
        ensures
            errors_kept(old(self).errors@, final(self).errors@),
            state_kept(*old(self), *final(self)),
            errors_view(final(self).errors@) == errors_view(old(self).errors@)
                + duplicate_errors(generics@.map_values(|g: GenericParam| (g.span, generic_param_name(g))),
                    generics@.len() as int, "duplicate generic parameter `"@),
    {
        let ghost entries = generics@.map_values(|g: GenericParam| (g.span, generic_param_name(g)));
        let mut names: Vec<String> = Vec::new();
        let mut i: usize = 0;
        while i < generics.len()
            invariant
                errors_kept(old(self).errors@, self.errors@),
                state_kept(*old(self), *self),
                0 <= i <= generics@.len(),
                entries == generics@.map_values(|g: GenericParam| (g.span, generic_param_name(g))),
                forall|n: Seq<char>| has_name(names@, n) <==> (exists|j: int| 0 <= j < i && #[trigger] entries[j].1 == n),
                errors_view(self.errors@) == errors_view(old(self).errors@)
                    + duplicate_errors(entries, i as int, "duplicate generic parameter `"@),
            decreases generics@.len() - i,
        {
            let name = match &generics[i].kind {
                GenericParamKind::Type { name, .. } => name,
                GenericParamKind::Const { name, .. } => name,
            };
            proof {
                assert(entries[i as int] == (generics@[i as int].span, name@));
            }
            let ghost before = self.errors@;
            let ghost prior_names = names@;
            if !insert_name(&mut names, name) {
                self.error(generics[i].span, cat3("duplicate generic parameter `", name.as_str(), "`"));
                proof {
                    reveal_strlit("`");
                    assert(errors_view(self.errors@) =~= errors_view(before).push((generics@[i as int].span, "duplicate generic parameter `"@ + name@ + "`"@)));
                }
            }
            proof {
                lemma_names_extend(entries, i as int, prior_names, names@);
            }
            i = i + 1;
        }
    }

    /// Reports each field whose name an earlier field already has.
    fn check_duplicate_fields(&mut self, fields: &Vec<Field>)
        ensures
            errors_kept(old(self).errors@, final(self).errors@),
            state_kept(*old(self), *final(self)),
            errors_view(final(self).errors@) == errors_view(old(self).errors@)
                + duplicate_errors(fields@.map_values(|f: Field| (f.span, f.kind.name@)), fields@.len() as int,
                    "duplicate field `"@),
    {
        let ghost entries = fields@.map_values(|f: Field| (f.span, f.kind.name@));
        let mut names: Vec<String> = Vec::new();
        let mut i: usize = 0;
        while i < fields.len()
            invariant
                errors_kept(old(self).errors@, self.errors@),
                state_kept(*old(self), *self),
                0 <= i <= fields@.len(),
                entries == fields@.map_values(|f: Field| (f.span, f.kind.name@)),
                forall|n: Seq<char>| has_name(names@, n) <==> (exists|j: int| 0 <= j < i && #[trigger] entries[j].1 == n),
                errors_view(self.errors@) == errors_view(old(self).errors@)
                    + duplicate_errors(entries, i as int, "duplicate field `"@),
            decreases fields@.len() - i,
        {
            let ghost before = self.errors@;
            let ghost prior_names = names@;
            if !insert_name(&mut names, &fields[i].kind.name) {
                self.error(fields[i].span, cat3("duplicate field `", fields[i].kind.name.as_str(), "`"));
                proof {
                    reveal_strlit("`");
                    assert(errors_view(self.errors@) =~= errors_view(before).push((fields@[i as int].span, "duplicate field `"@ + fields@[i as int].kind.name@ + "`"@)));
                }
            }
            proof {
                lemma_names_extend(entries, i as int, prior_names, names@);
            }
            i = i + 1;
        }
    }

    /// The type of field `name` of a struct type, with its type arguments
    /// substituted.
    #[verifier::loop_isolation(false)]
    fn lookup_field_type(&self, ty: &Ty, name: &String) -> (r: Option<Ty>)
        ensures
            r is Some <==> (ty.kind matches TyKind::Path { path, .. }
                && (table_lookup(self.structs@, join_segments(path.kind.segment_views())) matches Some(item)
                    && exists|k: int| 0 <= k < item.kind.fields@.len() && (#[trigger] item.kind.fields@[k]).kind.name@ == name@)),
            r matches Some(t) ==> (ty.kind matches TyKind::Path { path, args }
                && (table_lookup(self.structs@, join_segments(path.kind.segment_views())) matches Some(item)
                    && exists|k: int, subs: Seq<(String, Ty)>| 0 <= k < item.kind.fields@.len()
                        && item.kind.fields@[k].kind.name@ == name@
                        && (forall|j: int| 0 <= j < k ==> item.kind.fields@[j].kind.name@ != name@)
                        && subst_table_is(subs, |n: Seq<char>| subst_arg(item.kind.generics@, args@,
                            if item.kind.generics@.len() < args@.len() { item.kind.generics@.len() as int } else { args@.len() as int }, n))
                        && ty_text(t) == #[trigger] substituted_text(item.kind.fields@[k].kind.ty, subs))),
    {
        match &ty.kind {
            TyKind::Path { path, args } => {
                let pname = path_name(path);
                let item = table_get(&self.structs, pname.as_str())?;
                let substitutions = generic_arg_substitutions(&item.kind.generics, args);
                let mut i: usize = 0;
                while i < item.kind.fields.len()
                    invariant
                        0 <= i <= item.kind.fields@.len(),
                        forall|j: int| 0 <= j < i ==> item.kind.fields@[j].kind.name@ != name@,
                    decreases item.kind.fields@.len() - i,
                {
                    if crate::text::str_eq(item.kind.fields[i].kind.name.as_str(), name.as_str()) {
                        let t = apply_type_substitutions(&item.kind.fields[i].kind.ty, &substitutions);
                        proof {
                            assert(item.kind.fields@[i as int].kind.name@ == name@);
                        }
                        return Some(t);
                    }
                    i = i + 1;
                }
                None
            },
            _ => None,
        }
    }

    /// The signature of method `method` for `self_ty`, with the type that
    /// stands for `Self`: from bounds in scope first, then from impls.
    #[verifier::loop_isolation(false)]
    fn find_method(&self, self_ty: &Ty, method: &String, scope: &GenericScope) -> (r: Option<(&'a MethodSig, Ty)>)
        ensures
            r matches Some((sig, t)) ==> (exists|k: int| 0 <= k < scope.obligations@.len()
                    && t.span == (#[trigger] scope.obligations@[k]).0.span
                    && forall|s: Seq<char>| ty_text_with(t, s) == ty_text_with(scope.obligations@[k].0, s))
                || (exists|j: int| 0 <= j < self.impls@.len()
                    && t.span == (#[trigger] self.impls@[j]).kind.self_ty.span
                    && forall|s: Seq<char>| ty_text_with(t, s) == ty_text_with(self.impls@[j].kind.self_ty, s)),
            scope.obligations@.len() == 0 && self.impls@.len() == 0 ==> r is None,
            (exists|j: int| 0 <= j < self.impls@.len() && same_primitive(*self_ty, (#[trigger] self.impls@[j]).kind.self_ty)
                && exists|m: int| 0 <= m < self.impls@[j].kind.members@.len()
                    && ((#[trigger] self.impls@[j].kind.members@[m]).kind matches ImplMemberKind::Method(md)
                        && md.kind.sig.kind.name@ == method@)) ==> r is Some,
    {
        let mut i: usize = 0;
        while i < scope.obligations.len()
            invariant
                0 <= i <= scope.obligations@.len(),
            decreases scope.obligations@.len() - i,
        {
            let (ty, interface_ref) = &scope.obligations[i];
            if self.ty_eq_no_diag(self_ty, ty, scope, EVAL_FUEL) {
                if let Some(reqs) = self.interface_reqs(interface_ref) {
                    if let Some(sig) = table_get(&reqs.methods, method.as_str()) {
                        let t = crate::ast::clone_ty(ty);
                        proof {
                            assert(t.span == scope.obligations@[i as int].0.span);
                        }
                        return Some((sig, t));
                    }
                }
            }
            i = i + 1;
        }
        let mut j: usize = 0;
        while j < self.impls.len()
            invariant
                0 <= j <= self.impls@.len(),
                forall|q: int| 0 <= q < j ==> !(same_primitive(*self_ty, (#[trigger] self.impls@[q]).kind.self_ty)
                    && exists|m: int| 0 <= m < self.impls@[q].kind.members@.len()
                        && ((#[trigger] self.impls@[q].kind.members@[m]).kind matches ImplMemberKind::Method(md)
                            && md.kind.sig.kind.name@ == method@)),
            decreases self.impls@.len() - j,
        {
            let imp = self.impls[j];
            let ghost jj = j as int;
            j = j + 1;
            if !self.ty_eq_no_diag(self_ty, &imp.kind.self_ty, scope, EVAL_FUEL) {
                continue;
            }
            if let Some(interface_ref) = &imp.kind.interface {
                if let Some(reqs) = self.interface_reqs(interface_ref) {
                    if let Some(sig) = table_get(&reqs.methods, method.as_str()) {
                        let t = crate::ast::clone_ty(&imp.kind.self_ty);
                        proof {
                            assert(t.span == self.impls@[jj].kind.self_ty.span);
                        }
                        return Some((sig, t));
                    }
                }
            }
            let mut m: usize = 0;
            while m < imp.kind.members.len()
                invariant
                    0 <= m <= imp.kind.members@.len(),
                    forall|q: int| 0 <= q < m ==> !((#[trigger] imp.kind.members@[q]).kind matches ImplMemberKind::Method(md)
                        && md.kind.sig.kind.name@ == method@),
                decreases imp.kind.members@.len() - m,
            {
                if let ImplMemberKind::Method(method_def) = &imp.kind.members[m].kind {
                    if crate::text::str_eq(method_def.kind.sig.kind.name.as_str(), method.as_str()) {
                        let t = crate::ast::clone_ty(&imp.kind.self_ty);
                        proof {
                            assert(t.span == self.impls@[jj].kind.self_ty.span);
                        }
                        return Some((&method_def.kind.sig, t));
                    }
                }
                m = m + 1;
            }
        }
        None
    }
}


/// `a`, `n`, `b`, the decimal `k`, `c`.
fn name_count_message(a: &str, n: &str, b: &str, k: usize, c: &str) -> (r: String)
    ensures
        r@ == a@ + n@ + b@ + crate::text::nat_decimal(k as nat) + c@,
{
    let mut s = cat3(a, n, b);
    push_usize(&mut s, k);
    push_str(&mut s, c);
    s
}

/// `a`, `n`, `b`, the rendering of `ty`, `c`.
fn name_ty_message(a: &str, n: &str, b: &str, ty: &Ty, c: &str) -> (r: String)
    ensures
        r@ == a@ + n@ + b@ + ty_text(*ty) + c@,
{
    let mut s = cat3(a, n, b);
    let x = ty_display(ty);
    push_string(&mut s, &x);
    push_str(&mut s, c);
    s
}

/// `a`, the rendering of `ty`, `b`, `n`, `c`.
fn ty_name_message(a: &str, ty: &Ty, b: &str, n: &str, c: &str) -> (r: String)
    ensures
        r@ == a@ + ty_text(*ty) + b@ + n@ + c@,
{
    let mut s = owned(a);
    let x = ty_display(ty);
    push_string(&mut s, &x);
    push_str(&mut s, b);
    push_str(&mut s, n);
    push_str(&mut s, c);
    s
}

/// Whether the operator takes two integers of one type to that type.
pub open spec fn is_arithmetic_op_spec(op: BinaryOp) -> bool {
    op is Add || op is Sub || op is Mul || op is Div || op is Rem || op is BitAnd
        || op is BitOr || op is BitXor || op is Shl || op is Shr
}

/// The type an integer literal takes: the enclosing function's return type
/// when that is an integer type, `i32` otherwise.
pub open spec fn literal_int_ty(expected_ret: Ty) -> IntTy {
    match expected_ret.kind {
        TyKind::Int(t) => t,
        _ => IntTy { signedness: Signedness::Signed, width: crate::ast::IntWidth::W32 },
    }
}

/// Whether the operator takes two integers of one type to that type.
fn is_arithmetic_op(op: BinaryOp) -> (r: bool)
    ensures
        r == is_arithmetic_op_spec(op),
{
    match op {
        BinaryOp::Add | BinaryOp::Sub | BinaryOp::Mul | BinaryOp::Div | BinaryOp::Rem
        | BinaryOp::BitAnd | BinaryOp::BitOr | BinaryOp::BitXor | BinaryOp::Shl | BinaryOp::Shr => true,
        _ => false,
    }
}

/// Whether the operator compares two values of one type.
fn is_comparison_op(op: BinaryOp) -> (r: bool)
    ensures
        r == (op is Eq || op is Ne || op is Lt || op is Le || op is Gt || op is Ge),
{
    match op {
        BinaryOp::Eq | BinaryOp::Ne | BinaryOp::Lt | BinaryOp::Le | BinaryOp::Gt | BinaryOp::Ge => true,
        _ => false,
    }
}

impl<'a> Checker<'a> {
    /// Checks a pattern against the type of the value it matches, binding
    /// its names in `locals` and recording the enum variants it names.
    /// Whether the pattern matches every value (a wildcard or a binding).
    fn check_pat(&mut self, pat: &Pat, expected: &Ty, scope: &GenericScope, locals: &mut Vec<(String, Ty)>, seen_variants: &mut Vec<String>) -> (r: bool)
        ensures
            errors_kept(old(self).errors@, final(self).errors@),
            state_kept(*old(self), *final(self)),
            r == (pat.kind is Wildcard || pat.kind is Binding),
            names_grow(old(seen_variants)@, final(seen_variants)@),
            (pat.kind is Wildcard || pat.kind is Unit || pat.kind is BoolLit || pat.kind is IntLit)
                ==> final(locals)@ == old(locals)@ && final(seen_variants)@ == old(seen_variants)@,
            pat.kind is Wildcard ==> final(self).errors@ == old(self).errors@,
            pat.kind matches PatKind::Binding { name } ==> ({
                &&& final(self).errors@ == old(self).errors@
                &&& final(seen_variants)@ == old(seen_variants)@
                &&& table_lookup(final(locals)@, name@) matches Some(t) && ty_same(t, *expected)
                &&& forall|n: Seq<char>| n != name@
                    ==> #[trigger] table_lookup(final(locals)@, n) == table_lookup(old(locals)@, n)
            }),
            pat.kind is Unit ==> errors_view(final(self).errors@) == errors_view(old(self).errors@)
                + (if expected.kind is Unit { Seq::empty() } else { seq![(pat.span, "unit pattern applied to non-unit value"@)] }),
            pat.kind is BoolLit ==> errors_view(final(self).errors@) == errors_view(old(self).errors@)
                + (if expected.kind is Bool { Seq::empty() } else { seq![(pat.span, "bool pattern applied to non-bool value"@)] }),
            pat.kind is IntLit ==> errors_view(final(self).errors@) == errors_view(old(self).errors@)
                + (if expected.kind is Int { Seq::empty() } else { seq![(pat.span, "integer pattern applied to non-integer value"@)] }),
            pat.kind matches PatKind::EnumVariant { enum_path, variant, .. } ==> {
                let name = join_segments(enum_path.kind.segment_views());
                let matching = expected.kind matches TyKind::Path { path, .. }
                    && join_segments(path.kind.segment_views()) == name;
                &&& !matching ==> errors_view(final(self).errors@) == errors_view(old(self).errors@)
                        .push((pat.span, "enum variant pattern applied to non-matching enum type"@))
                    && final(locals)@ == old(locals)@ && final(seen_variants)@ == old(seen_variants)@
                &&& (table_lookup(old(self).enums@, name) matches Some(e) && matching
                    && exists|k: int| 0 <= k < e.kind.variants@.len()
                        && (#[trigger] e.kind.variants@[k]).kind.name@ == variant@)
                    ==> has_name(final(seen_variants)@, variant@)
                &&& forall|n: Seq<char>| #[trigger] has_name(final(seen_variants)@, n)
                    ==> has_name(old(seen_variants)@, n) || n == variant@
                &&& (matching && table_lookup(old(self).enums@, name) is None)
                    ==> errors_view(final(self).errors@) == errors_view(old(self).errors@)
                        .push((enum_path.span, "unknown enum `"@ + name + "`"@))
                &&& (table_lookup(old(self).enums@, name) matches Some(e) && matching
                    && forall|k: int| 0 <= k < e.kind.variants@.len()
                        ==> (#[trigger] e.kind.variants@[k]).kind.name@ != variant@)
                    ==> errors_view(final(self).errors@) == errors_view(old(self).errors@)
                        .push((pat.span, "unknown variant `"@ + variant@ + "`"@))
            },
            pat.kind matches PatKind::Struct { path: spath, .. } ==> ({
                let matching = expected.kind matches TyKind::Path { path, .. }
                    && join_segments(path.kind.segment_views()) == join_segments(spath.kind.segment_views());
                &&& !matching ==> errors_view(final(self).errors@) == errors_view(old(self).errors@)
                        .push((pat.span, "struct pattern applied to non-matching struct type"@))
                    && final(locals)@ == old(locals)@
                &&& final(seen_variants)@ == old(seen_variants)@
            }),
        decreases pat,
    {
        match &pat.kind {
            PatKind::Wildcard => true,
            PatKind::Binding { name } => {
                locals_insert(locals, name, crate::ast::clone_ty(expected));
                true
            },
            PatKind::Unit => {
                if !is_unit(expected) {
                    self.error(pat.span, owned("unit pattern applied to non-unit value"));
                }
                false
            },
            PatKind::BoolLit(_) => {
                if !is_bool(expected) {
                    self.error(pat.span, owned("bool pattern applied to non-bool value"));
                }
                false
            },
            PatKind::IntLit(_) => {
                if !is_int(expected) {
                    self.error(pat.span, owned("integer pattern applied to non-integer value"));
                }
                false
            },
            PatKind::EnumVariant { enum_path, variant, args } => {
                let enum_name = path_name(enum_path);
                let expected_enum = match &expected.kind {
                    TyKind::Path { path, args } => {
                        let expected_name = path_name(path);
                        if crate::text::str_eq(expected_name.as_str(), enum_name.as_str()) {
                            Some(args)
                        } else {
                            None
                        }
                    },
                    _ => None,
                };
                let expected_enum = match expected_enum {
                    Some(a) => a,
                    None => {
                        self.error(pat.span, owned("enum variant pattern applied to non-matching enum type"));
                        return false;
                    },
                };
                let enum_item = match table_get(&self.enums, enum_name.as_str()) {
                    Some(item) => item,
                    None => {
                        self.error(enum_path.span, cat3("unknown enum `", enum_name.as_str(), "`"));
                        proof {
                            assert(errors_view(self.errors@) =~= errors_view(old(self).errors@)
                                .push((enum_path.span, "unknown enum `"@ + enum_name@ + "`"@)));
                        }
                        return false;
                    },
                };
                let variant_decl = match find_variant(&enum_item.kind.variants, variant.as_str()) {
                    Some(v) => v,
                    None => {
                        self.error(pat.span, cat3("unknown variant `", variant.as_str(), "`"));
                        proof {
                            assert(errors_view(self.errors@) =~= errors_view(old(self).errors@)
                                .push((pat.span, "unknown variant `"@ + variant@ + "`"@)));
                        }
                        return false;
                    },
                };
                insert_name(seen_variants, variant);
                let ghost marked = seen_variants@;
                proof {
                    assert(has_name(marked, variant@));
                }
                let substitutions = generic_arg_substitutions(&enum_item.kind.generics, expected_enum);
                // Sub-patterns match the payload, not the scrutinee: the
                // variants they name do not count toward this match.
                let mut nested: Vec<String> = Vec::new();
                match (&variant_decl.kind.payload.kind, &args.kind) {
                    (VariantPayloadKind::Unit, EnumPatArgsKind::Unit) => {},
                    (VariantPayloadKind::Tuple(tys), EnumPatArgsKind::Tuple(pats)) => {
                        if tys.len() != pats.len() {
                            self.error(pat.span, name_count_message("variant `", variant.as_str(), "` expects ", tys.len(), " fields"));
                        }
                        self.check_tuple_pats(pats, tys, &substitutions, scope, locals, &mut nested);
                    },
                    (VariantPayloadKind::Struct(fields), EnumPatArgsKind::Struct(pats)) => {
                        self.check_variant_field_pats(pat.span, pats, fields, &substitutions, scope, locals, &mut nested);
                    },
                    _ => {
                        self.error(pat.span, owned("enum pattern payload form does not match variant"));
                    },
                }
                proof {
                    assert(seen_variants@ == marked);
                    assert forall|n: Seq<char>| #[trigger] has_name(old(seen_variants)@, n) implies has_name(seen_variants@, n) by {
                        assert(has_name(marked, n));
                    }
                }
                false
            },
            PatKind::Struct { path, fields } => {
                let struct_name = path_name(path);
                let expected_args = match &expected.kind {
                    TyKind::Path { path: epath, args } => {
                        let expected_name = path_name(epath);
                        if crate::text::str_eq(expected_name.as_str(), struct_name.as_str()) {
                            Some(args)
                        } else {
                            None
                        }
                    },
                    _ => None,
                };
                let expected_args = match expected_args {
                    Some(a) => a,
                    None => {
                        self.error(pat.span, owned("struct pattern applied to non-matching struct type"));
                        return false;
                    },
                };
                let struct_item = match table_get(&self.structs, struct_name.as_str()) {
                    Some(item) => item,
                    None => {
                        self.error(path.span, cat3("unknown struct `", struct_name.as_str(), "`"));
                        return false;
                    },
                };
                let substitutions = generic_arg_substitutions(&struct_item.kind.generics, expected_args);
                let mut nested: Vec<String> = Vec::new();
                self.check_struct_field_pats(fields, &struct_item.kind.fields, &substitutions, scope, locals, &mut nested);
                false
            },
        }
    }

    /// The positional sub-patterns of a tuple variant against its field
    /// types, as far as both go.
    fn check_tuple_pats(&mut self, pats: &Vec<Pat>, tys: &Vec<Ty>, substitutions: &Vec<(String, Ty)>, scope: &GenericScope, locals: &mut Vec<(String, Ty)>, seen_variants: &mut Vec<String>)
        ensures
            errors_kept(old(self).errors@, final(self).errors@),
            state_kept(*old(self), *final(self)),
            names_grow(old(seen_variants)@, final(seen_variants)@),
            (forall|k: int| 0 <= k < pats@.len() && k < tys@.len() ==> (#[trigger] pats@[k]).kind is Wildcard)
                ==> final(self).errors@ == old(self).errors@ && final(locals)@ == old(locals)@
                    && final(seen_variants)@ == old(seen_variants)@,
            forall|k: int| 0 <= k < pats@.len() && k < tys@.len() ==> ((#[trigger] pats@[k]).kind is Binding
                && (forall|j: int| k < j < pats@.len() && j < tys@.len() ==> pats@[j].kind is Wildcard)
                ==> table_lookup(final(locals)@, pats@[k].kind->Binding_name@) is Some),
        decreases pats,
    {
        let mut i: usize = 0;
        while i < pats.len() && i < tys.len()
            invariant
                errors_kept(old(self).errors@, self.errors@),
                state_kept(*old(self), *self),
                0 <= i <= pats@.len(),
                i <= tys@.len(),
                names_grow(old(seen_variants)@, seen_variants@),
                (forall|k: int| 0 <= k < i ==> (#[trigger] pats@[k]).kind is Wildcard)
                    ==> self.errors@ == old(self).errors@ && locals@ == old(locals)@ && seen_variants@ == old(seen_variants)@,
                forall|k: int| 0 <= k < i ==> ((#[trigger] pats@[k]).kind is Binding
                    && (forall|j: int| k < j < i ==> pats@[j].kind is Wildcard)
                    ==> table_lookup(locals@, pats@[k].kind->Binding_name@) is Some),
            decreases pats@.len() - i,
        {
            let ghost locals0 = locals@;
            let ty = apply_type_substitutions(&tys[i], substitutions);
            self.check_pat(&pats[i], &ty, scope, locals, seen_variants);
            proof {
                assert forall|k: int| 0 <= k < i + 1 implies ((#[trigger] pats@[k]).kind is Binding
                    && (forall|j: int| k < j < i + 1 ==> pats@[j].kind is Wildcard)
                    ==> table_lookup(locals@, pats@[k].kind->Binding_name@) is Some) by {
                    if k < i && pats@[k].kind is Binding && (forall|j: int| k < j < i + 1 ==> pats@[j].kind is Wildcard) {
                        assert(pats@[i as int].kind is Wildcard);
                    }
                }
            }
            i = i + 1;
        }
    }

    /// The named sub-patterns of a struct variant, one for each declared
    /// field; a field without a pattern is reported.
    fn check_variant_field_pats(&mut self, span: Span, pats: &Vec<crate::ast::FieldPat>, fields: &Vec<Field>, substitutions: &Vec<(String, Ty)>, scope: &GenericScope, locals: &mut Vec<(String, Ty)>, seen_variants: &mut Vec<String>)
        ensures
            errors_kept(old(self).errors@, final(self).errors@),
            state_kept(*old(self), *final(self)),
            names_grow(old(seen_variants)@, final(seen_variants)@),
            forall|k: int| 0 <= k < fields@.len() ==> ((forall|q: int| 0 <= q < pats@.len() ==> pats@[q].kind.name@ != (#[trigger] fields@[k]).kind.name@)
                ==> reported(final(self).errors@, (span, "missing pattern field `"@ + fields@[k].kind.name@ + "`"@))),
        decreases pats,
    {
        let mut i: usize = 0;
        while i < fields.len()
            invariant
                errors_kept(old(self).errors@, self.errors@),
                state_kept(*old(self), *self),
                0 <= i <= fields@.len(),
                names_grow(old(seen_variants)@, seen_variants@),
                forall|k: int| 0 <= k < i ==> ((forall|q: int| 0 <= q < pats@.len() ==> pats@[q].kind.name@ != (#[trigger] fields@[k]).kind.name@)
                    ==> reported(self.errors@, (span, "missing pattern field `"@ + fields@[k].kind.name@ + "`"@))),
            decreases fields@.len() - i,
        {
            let ghost before = self.errors@;
            let field = &fields[i];
            match find_field_pat(pats, field.kind.name.as_str()) {
                Some(k) => {
                    let ty = apply_type_substitutions(&field.kind.ty, substitutions);
                    self.check_pat(&pats[k].kind.pat, &ty, scope, locals, seen_variants);
                },
                None => {
                    self.error(span, cat3("missing pattern field `", field.kind.name.as_str(), "`"));
                },
            }
            proof {
                let e = (span, "missing pattern field `"@ + fields@[i as int].kind.name@ + "`"@);
                if forall|q: int| 0 <= q < pats@.len() ==> pats@[q].kind.name@ != fields@[i as int].kind.name@ {
                    let last = self.errors@.len() - 1;
                    assert((self.errors@[last].0, self.errors@[last].1@) == e);
                }
                assert forall|k: int| 0 <= k < i + 1 implies ((forall|q: int| 0 <= q < pats@.len() ==> pats@[q].kind.name@ != (#[trigger] fields@[k]).kind.name@)
                    ==> reported(self.errors@, (span, "missing pattern field `"@ + fields@[k].kind.name@ + "`"@))) by {
                    if k < i && (forall|q: int| 0 <= q < pats@.len() ==> pats@[q].kind.name@ != fields@[k].kind.name@) {
                        lemma_reported_kept(before, self.errors@, (span, "missing pattern field `"@ + fields@[k].kind.name@ + "`"@));
                    }
                }
            }
            i = i + 1;
        }
    }

    /// The field patterns of a struct pattern; duplicate and unknown fields
    /// are reported.
    fn check_struct_field_pats(&mut self, pats: &Vec<crate::ast::FieldPat>, fields: &Vec<Field>, substitutions: &Vec<(String, Ty)>, scope: &GenericScope, locals: &mut Vec<(String, Ty)>, seen_variants: &mut Vec<String>)
        ensures
            errors_kept(old(self).errors@, final(self).errors@),
            state_kept(*old(self), *final(self)),
            names_grow(old(seen_variants)@, final(seen_variants)@),
            forall|k: int| 0 <= k < pats@.len() ==> #[trigger] field_pat_reported(pats@, fields@, k, final(self).errors@),
        decreases pats,
    {
        let mut seen_fields: Vec<String> = Vec::new();
        let mut i: usize = 0;
        while i < pats.len()
            invariant
                errors_kept(old(self).errors@, self.errors@),
                state_kept(*old(self), *self),
                0 <= i <= pats@.len(),
                names_grow(old(seen_variants)@, seen_variants@),
                forall|n: Seq<char>| #[trigger] has_name(seen_fields@, n) <==> exists|j: int| 0 <= j < i && pats@[j].kind.name@ == n,
                forall|k: int| 0 <= k < i ==> #[trigger] field_pat_reported(pats@, fields@, k, self.errors@),
            decreases pats@.len() - i,
        {
            let ghost before = self.errors@;
            let field_pat = &pats[i];
            if !insert_name(&mut seen_fields, &field_pat.kind.name) {
                self.error(field_pat.span, cat3("duplicate pattern field `", field_pat.kind.name.as_str(), "`"));
            } else {
                match find_field(fields, field_pat.kind.name.as_str()) {
                    Some(field) => {
                        let field_ty = apply_type_substitutions(&field.kind.ty, substitutions);
                        self.check_pat(&field_pat.kind.pat, &field_ty, scope, locals, seen_variants);
                    },
                    None => {
                        self.error(field_pat.span, cat3("unknown field `", field_pat.kind.name.as_str(), "`"));
                    },
                }
            }
            proof {
                let p = pats@[i as int];
                let e1 = (p.span, "duplicate pattern field `"@ + p.kind.name@ + "`"@);
                let e2 = (p.span, "unknown field `"@ + p.kind.name@ + "`"@);
                if exists|j: int| 0 <= j < i && pats@[j].kind.name@ == p.kind.name@ {
                    let last = self.errors@.len() - 1;
                    assert((self.errors@[last].0, self.errors@[last].1@) == e1);
                } else if forall|f: int| 0 <= f < fields@.len() ==> fields@[f].kind.name@ != p.kind.name@ {
                    let last = self.errors@.len() - 1;
                    assert((self.errors@[last].0, self.errors@[last].1@) == e2);
                }
                assert(field_pat_reported(pats@, fields@, i as int, self.errors@));
                assert forall|k: int| 0 <= k < i + 1 implies #[trigger] field_pat_reported(pats@, fields@, k, self.errors@) by {
                    if k < i {
                        assert(field_pat_reported(pats@, fields@, k, before));
                        let q = pats@[k];
                        if exists|j: int| 0 <= j < k && pats@[j].kind.name@ == q.kind.name@ {
                            lemma_reported_kept(before, self.errors@, (q.span, "duplicate pattern field `"@ + q.kind.name@ + "`"@));
                        } else if forall|f: int| 0 <= f < fields@.len() ==> fields@[f].kind.name@ != q.kind.name@ {
                            lemma_reported_kept(before, self.errors@, (q.span, "unknown field `"@ + q.kind.name@ + "`"@));
                        }
                    }
                }
                assert forall|n: Seq<char>| #[trigger] has_name(seen_fields@, n) <==> exists|j: int| 0 <= j < i + 1 && pats@[j].kind.name@ == n by {
                    if exists|j: int| 0 <= j < i + 1 && pats@[j].kind.name@ == n {
                        let j = choose|j: int| 0 <= j < i + 1 && pats@[j].kind.name@ == n;
                        if j < i {
                            assert(exists|j2: int| 0 <= j2 < i && pats@[j2].kind.name@ == n);
                        }
                    }
                }
            }
            i = i + 1;
        }
    }
}

/// The first of the variants named `name`, if any.
pub open spec fn first_variant(variants: Seq<crate::ast::EnumVariant>, name: Seq<char>) -> Option<crate::ast::EnumVariant>
    decreases variants.len(),
{
    if variants.len() == 0 {
        None
    } else if variants[0].kind.name@ == name {
        Some(variants[0])
    } else {
        first_variant(variants.drop_first(), name)
    }
}

/// Whether `t` is written as the bare name `name`: one segment, no
/// arguments.
pub open spec fn is_bare_name(t: Ty, name: Seq<char>) -> bool {
    t.kind matches TyKind::Path { path, args } && path.kind.segments@.len() == 1 && args@.len() == 0
        && path.kind.segments@[0]@ == name
}

/// The name a type is written as, where it is one bare name.
pub open spec fn bare_name(t: Ty) -> Option<Seq<char>> {
    match t.kind {
        TyKind::Path { path, args } => if path.kind.segments@.len() == 1 && args@.len() == 0 {
            Some(path.kind.segments@[0]@)
        } else {
            None
        },
        _ => None,
    }
}

/// Whether each payload type is a type parameter of the enum written bare,
/// and no parameter stands twice.
pub open spec fn distinct_param_payload(tys: Seq<Ty>, generics: Seq<GenericParam>) -> bool {
    &&& forall|j: int| 0 <= j < tys.len() ==> (bare_name(#[trigger] tys[j]) matches Some(nm) && type_param_named(generics, nm))
    &&& forall|j: int, k: int| 0 <= j < k < tys.len() ==> bare_name(#[trigger] tys[j]) != bare_name(#[trigger] tys[k])
}

/// The first of the first `n` declared payload types that is the bare name
/// `name`.
pub open spec fn first_bare_position(tys: Seq<Ty>, name: Seq<char>, n: int) -> Option<int>
    decreases n,
{
    if n <= 0 {
        None
    } else {
        match first_bare_position(tys, name, n - 1) {
            Some(j) => Some(j),
            None => if is_bare_name(tys[n - 1], name) { Some(n - 1) } else { None },
        }
    }
}

/// A found position is one of the first `n` and declares the bare name.
proof fn lemma_first_bare_position(tys: Seq<Ty>, name: Seq<char>, n: int)
    ensures
        first_bare_position(tys, name, n) matches Some(j) ==> 0 <= j < n && is_bare_name(tys[j], name),
    decreases n,
{
    if n > 0 {
        lemma_first_bare_position(tys, name, n - 1);
    }
}

/// The smaller of two lengths.
pub open spec fn min_len(a: int, b: int) -> int {
    if a < b { a } else { b }
}

/// Whether the inferred parameters `subs` give each of the enum's type
/// parameters `params` named by a declared payload type the type found for
/// the first argument declared as it.
spec fn subs_from_args(subs: Seq<(String, Ty)>, params: Seq<String>, tys: Seq<Ty>, actual: Seq<Expr>, expected_ret: Ty) -> bool {
    forall|nm: Seq<char>| #[trigger] has_name(params, nm) ==> match first_bare_position(tys, nm, min_len(tys.len() as int, actual.len() as int)) {
        Some(j) => table_lookup(subs, nm) matches Some(t)
            && (actual[j].kind is IntLit ==> t.kind == TyKind::Int(literal_int_ty(expected_ret))),
        None => table_lookup(subs, nm) is None,
    }
}

/// Whether `ty`, the type of a positional constructor with payload types
/// `tys` and arguments `actual`, has the enum's parameters filled in from
/// the arguments: a type parameter is given by the first argument whose
/// declared type is that parameter (an integer literal there makes it the
/// literal's integer type), and stays itself where no argument gives it.
pub open spec fn ctor_args_inferred(generics: Seq<GenericParam>, tys: Seq<Ty>, actual: Seq<Expr>, expected_ret: Ty, span: Span, ty: Ty) -> bool {
    let n = min_len(tys.len() as int, actual.len() as int);
    ty.kind matches TyKind::Path { args, .. } && args@.len() == generics.len()
        && forall|g: int| 0 <= g < generics.len() ==> ((#[trigger] generics[g]).kind matches GenericParamKind::Type { name, .. }
            ==> (args@[g].kind matches GenericArgKind::Ty(t) && match first_bare_position(tys, name@, n) {
                Some(j) => actual[j].kind is IntLit ==> t.kind == TyKind::Int(literal_int_ty(expected_ret)),
                None => t.span == span && is_bare_name(t, name@),
            }))
}

/// Whether a constructor's arguments have the form of the variant's
/// payload: none, positional or named.
pub open spec fn same_payload_form(payload: VariantPayloadKind, args: EnumCtorArgsKind) -> bool {
    ||| payload is Unit && args is Unit
    ||| payload is Tuple && args is Tuple
    ||| payload is Struct && args is Struct
}

/// The first variant named `name`.
fn find_variant<'b>(variants: &'b Vec<crate::ast::EnumVariant>, name: &str) -> (r: Option<&'b crate::ast::EnumVariant>)
    ensures
        r matches Some(v) ==> v.kind.name@ == name@ && first_variant(variants@, name@) == Some(*v),
        r is None ==> first_variant(variants@, name@) is None,
        r is None ==> forall|k: int| 0 <= k < variants@.len() ==> variants@[k].kind.name@ != name@,
        r is Some <==> exists|k: int| 0 <= k < variants@.len() && (#[trigger] variants@[k]).kind.name@ == name@,
{
    let mut i: usize = 0;
    proof {
        assert(variants@.subrange(0, variants@.len() as int) =~= variants@);
    }
    while i < variants.len()
        invariant
            0 <= i <= variants@.len(),
            forall|k: int| 0 <= k < i ==> variants@[k].kind.name@ != name@,
            first_variant(variants@, name@) == first_variant(variants@.subrange(i as int, variants@.len() as int), name@),
        decreases variants@.len() - i,
    {
        proof {
            assert(variants@.subrange(i as int, variants@.len() as int).drop_first()
                =~= variants@.subrange(i as int + 1, variants@.len() as int));
        }
        if crate::text::str_eq(variants[i].kind.name.as_str(), name) {
            return Some(&variants[i]);
        }
        i = i + 1;
    }
    None
}

/// The first field named `name`.
fn find_field<'b>(fields: &'b Vec<Field>, name: &str) -> (r: Option<&'b Field>)
    ensures
        r matches Some(f) ==> f.kind.name@ == name@,
        r matches Some(f) ==> exists|k: int| 0 <= k < fields@.len() && fields@[k] == *f,
        r is None ==> forall|k: int| 0 <= k < fields@.len() ==> fields@[k].kind.name@ != name@,
{
    let mut i: usize = 0;
    while i < fields.len()
        invariant
            0 <= i <= fields@.len(),
            forall|k: int| 0 <= k < i ==> fields@[k].kind.name@ != name@,
        decreases fields@.len() - i,
    {
        if crate::text::str_eq(fields[i].kind.name.as_str(), name) {
            return Some(&fields[i]);
        }
        i = i + 1;
    }
    None
}

/// The position of the first field pattern named `name`.
fn find_field_pat(pats: &Vec<crate::ast::FieldPat>, name: &str) -> (r: Option<usize>)
    ensures
        r matches Some(k) ==> k < pats@.len() && pats@[k as int].kind.name@ == name@,
        r is None ==> forall|k: int| 0 <= k < pats@.len() ==> pats@[k].kind.name@ != name@,
{
    let mut i: usize = 0;
    while i < pats.len()
        invariant
            0 <= i <= pats@.len(),
            forall|k: int| 0 <= k < i ==> pats@[k].kind.name@ != name@,
        decreases pats@.len() - i,
    {
        if crate::text::str_eq(pats[i].kind.name.as_str(), name) {
            return Some(i);
        }
        i = i + 1;
    }
    None
}

/// The position of the first field expression named `name`.
fn find_field_expr(fields: &Vec<crate::ast::FieldExpr>, name: &str) -> (r: Option<usize>)
    ensures
        r matches Some(k) ==> k < fields@.len() && fields@[k as int].kind.name@ == name@,
        r is None ==> forall|k: int| 0 <= k < fields@.len() ==> fields@[k].kind.name@ != name@,
{
    let mut i: usize = 0;
    while i < fields.len()
        invariant
            0 <= i <= fields@.len(),
            forall|k: int| 0 <= k < i ==> fields@[k].kind.name@ != name@,
        decreases fields@.len() - i,
    {
        if crate::text::str_eq(fields[i].kind.name.as_str(), name) {
            return Some(i);
        }
        i = i + 1;
    }
    None
}

impl<'a> Checker<'a> {
    /// The type of an expression; `expected_ret` is the return type of the
    /// enclosing function, which also types integer literals.
    fn check_expr(&mut self, expr: &Expr, scope: &GenericScope, locals: &mut Vec<(String, Ty)>, expected_ret: &Ty, fuel: u64) -> (r: ExprTy)
        ensures
            errors_kept(old(self).errors@, final(self).errors@),
            state_kept(*old(self), *final(self)),
            (fuel > 0 && is_leaf(*expr)) ==> final(locals)@ == old(locals)@,
            fuel > 0 ==> match expr.kind {
                ExprKind::UnitLit => r.ty.kind is Unit && !r.diverges && final(self).errors@ == old(self).errors@,
                ExprKind::BoolLit(_) => r.ty.kind is Bool && !r.diverges && final(self).errors@ == old(self).errors@,
                ExprKind::IntLit(v) => {
                    let t = literal_int_ty(*expected_ret);
                    &&& r.ty.kind == TyKind::Int(t)
                    &&& !r.diverges
                    &&& fits_spec(v@, t) ==> final(self).errors@ == old(self).errors@
                    &&& !fits_spec(v@, t) ==> final(self).errors@.len() == old(self).errors@.len() + 1
                        && final(self).errors@.drop_last() == old(self).errors@
                        && final(self).errors@.last().0 == expr.span
                        && final(self).errors@.last().1@ == "integer literal does not fit in "@ + int_ty_name(t)
                },
                ExprKind::Todo => r.ty.kind is Never && r.diverges && final(self).errors@ == old(self).errors@,
                ExprKind::Var(name) => {
                    &&& final(locals)@ == old(locals)@
                    &&& table_lookup(old(locals)@, name@) matches Some(t) ==> ty_same(r.ty, t) && !r.diverges
                        && final(self).errors@ == old(self).errors@
                    &&& table_lookup(old(locals)@, name@) is None ==> r.ty.kind is Never && r.diverges
                        && errors_view(final(self).errors@) == errors_view(old(self).errors@)
                            .push((expr.span, "unknown variable `"@ + name@ + "`"@))
                },
                ExprKind::Return(_) => r.ty.kind is Never && r.diverges
                    && ((fuel > 1 && quiet_return(*expr, *expected_ret)) ==> final(self).errors@ == old(self).errors@),
                ExprKind::Call { callee, args } => fuel > 2 ==> (callee.kind matches ExprKind::Var(n)
                    ==> (table_lookup(old(self).fns@, n@) matches Some(f)
                        ==> fn_call_outcome(old(self).errors@, final(self).errors@, expr.span, n@, *f, args@.len() as int, r))),
                ExprKind::EnumCtor { enum_path, variant, args } => fuel > 1 ==> enum_ctor_outcome(old(self).enums@,
                    old(self).fns@, old(self).structs@, old(self).errors@, final(self).errors@, expr.span, enum_path,
                    variant@, args, r)
                    && (fuel > 2 ==> (table_lookup(old(self).enums@, join_segments(enum_path.kind.segment_views())) matches Some(e)
                        ==> (first_variant(e.kind.variants@, variant@) matches Some(v)
                        ==> (v.kind.payload.kind matches VariantPayloadKind::Tuple(tys)
                        ==> (args.kind matches EnumCtorArgsKind::Tuple(actual)
                        ==> ctor_args_inferred(e.kind.generics@, tys@, actual@, *expected_ret, expr.span, r.ty))))))
                    && (fuel > 2 ==> (table_lookup(old(self).enums@, join_segments(enum_path.kind.segment_views())) matches Some(e)
                        ==> (first_variant(e.kind.variants@, variant@) matches Some(v)
                        ==> (v.kind.payload.kind matches VariantPayloadKind::Tuple(tys)
                        ==> (args.kind matches EnumCtorArgsKind::Tuple(actual)
                        ==> ((tys@.len() == actual@.len() && distinct_param_payload(tys@, e.kind.generics@)
                            && forall|j: int| 0 <= j < actual@.len() ==> #[trigger] quiet_literal(actual@[j], *expected_ret))
                            ==> final(self).errors@ == old(self).errors@)))))),
                ExprKind::StructLit { path, .. } => (fuel > 1
                    && table_lookup(old(self).structs@, join_segments(path.kind.segment_views())) is None)
                    ==> r.ty.kind is Never && r.diverges && errors_view(final(self).errors@) == errors_view(old(self).errors@)
                        .push((path.span, "unknown struct `"@ + join_segments(path.kind.segment_views()) + "`"@)),
                ExprKind::Block(b) => (fuel > 4 && unmatched_tail(old(self).enums@, b, old(locals)@)) ==> exists|v: Seq<char>|
                    #[trigger] reported(final(self).errors@, not_exhaustive_error(b.kind.tail->0.span, v)),
                ExprKind::Assign { .. } => r.ty.kind is Unit,
                ExprKind::Unary { op: UnaryOp::Not, .. } => r.ty.kind is Bool,
                ExprKind::Binary { op, lhs, rhs } => (!is_arithmetic_op_spec(op) ==> r.ty.kind is Bool)
                    && (fuel > 1 ==> exists|lt: ExprTy, rt: ExprTy, mid: Seq<(Span, String)>|
                        #[trigger] binary_typed(op, expr.span, lt, rt, mid, final(self).errors@, r)
                        && errors_kept(old(self).errors@, mid)
                        && leaf_typed(*lhs, old(locals)@, *expected_ret, lt)
                        && (is_leaf(*lhs) ==> leaf_typed(*rhs, old(locals)@, *expected_ret, rt))
                        && ((quiet_leaf(*lhs, old(locals)@, *expected_ret) && quiet_leaf(*rhs, old(locals)@, *expected_ret))
                            ==> mid == old(self).errors@)),
                ExprKind::Match { scrutinee, arms } => fuel > 2 ==> (scrutinee.kind matches ExprKind::Var(n)
                    ==> (table_lookup(old(locals)@, n@) matches Some(t) ==> (leaves_variant_unmatched(old(self).enums@, t, arms@)
                        ==> exists|v: Seq<char>| #[trigger] reported(final(self).errors@, not_exhaustive_error(expr.span, v))))),
                ExprKind::If { cond, then_branch, else_branch } => (else_branch is None ==> !r.diverges)
                    && (fuel > 2 ==> exists|t: ExprTy, e: ExprTy, mid: Seq<(Span, String)>|
                        #[trigger] if_errors(t, e, mid, final(self).errors@, expr.span)
                        && if_typed(t, e, r)
                        && block_typed(then_branch, *expected_ret, t)
                        && (else_branch matches Some(b) ==> block_typed(b, *expected_ret, e))
                        && (else_branch is None ==> e.ty.kind is Unit && !e.diverges)
                        && errors_kept(old(self).errors@, mid)
                        && ((fuel > 3 && quiet_bool_cond(*cond, old(locals)@) && quiet_block(then_branch, *expected_ret)
                            && (else_branch matches Some(b) ==> quiet_block(b, *expected_ret))) ==> mid == old(self).errors@)),
                _ => true,
            },
        decreases fuel,
    {
        if fuel == 0 {
            return error_ty(expr.span);
        }
        match &expr.kind {
            ExprKind::UnitLit => plain(Node::new(expr.span, TyKind::Unit)),
            ExprKind::BoolLit(_) => plain(Node::new(expr.span, TyKind::Bool)),
            ExprKind::IntLit(value) => {
                let int_ty = match &expected_ret.kind {
                    TyKind::Int(t) => *t,
                    _ => IntTy::i32(),
                };
                if !fits_int_ty(value, int_ty) {
                    let mut message = owned("integer literal does not fit in ");
                    let name = int_ty.to_string();
                    push_string(&mut message, &name);
                    self.error(expr.span, message);
                    proof {
                        assert(self.errors@.drop_last() =~= old(self).errors@);
                    }
                }
                plain(Node::new(expr.span, TyKind::Int(int_ty)))
            },
            ExprKind::Var(name) => {
                match locals_get(locals, name.as_str()) {
                    Some(ty) => plain(crate::ast::clone_ty(ty)),
                    None => {
                        self.error(expr.span, cat3("unknown variable `", name.as_str(), "`"));
                        proof {
                            assert(errors_view(self.errors@) =~= errors_view(old(self).errors@)
                                .push((expr.span, "unknown variable `"@ + name@ + "`"@)));
                        }
                        error_ty(expr.span)
                    },
                }
            },
            ExprKind::Unary { op, expr: inner } => {
                let inner_ty = self.check_expr(inner, scope, locals, expected_ret, fuel - 1);
                match op {
                    UnaryOp::Neg => {
                        if !is_int(&inner_ty.ty) {
                            self.error(expr.span, owned("unary `-` expects integer operand"));
                        }
                        inner_ty
                    },
                    UnaryOp::Not => {
                        if !is_bool(&inner_ty.ty) {
                            self.error(expr.span, owned("unary `!` expects bool operand"));
                        }
                        ExprTy { ty: Node::new(expr.span, TyKind::Bool), diverges: inner_ty.diverges }
                    },
                }
            },
            ExprKind::Binary { op, lhs, rhs } => {
                let ghost start = self.errors@;
                let lhs_ty = self.check_expr(lhs, scope, locals, expected_ret, fuel - 1);
                let rhs_ty = self.check_expr(rhs, scope, locals, expected_ret, fuel - 1);
                let ghost mid = self.errors@;
                let diverges = lhs_ty.diverges || rhs_ty.diverges;
                let result = if is_arithmetic_op(*op) {
                    if !self.ty_eq(&lhs_ty.ty, &rhs_ty.ty, scope) || !is_int(&lhs_ty.ty) {
                        self.error(expr.span, owned("binary arithmetic expects matching integer operands"));
                        proof {
                            reveal_strlit("binary arithmetic expects matching integer operands");
                        }
                    }
                    ExprTy { ty: lhs_ty.ty, diverges }
                } else if is_comparison_op(*op) {
                    if !self.ty_eq(&lhs_ty.ty, &rhs_ty.ty, scope) {
                        self.error(expr.span, owned("comparison expects matching operand types"));
                    }
                    ExprTy { ty: Node::new(expr.span, TyKind::Bool), diverges }
                } else {
                    if !is_bool(&lhs_ty.ty) || !is_bool(&rhs_ty.ty) {
                        self.error(expr.span, owned("logical operator expects bool operands"));
                    }
                    ExprTy { ty: Node::new(expr.span, TyKind::Bool), diverges }
                };
                proof {
                    let matching = lhs_ty.ty.kind == rhs_ty.ty.kind || rhs_ty.ty.kind is Never;
                    let comparison = op is Eq || op is Ne || op is Lt || op is Le || op is Gt || op is Ge;
                    assert(result.diverges == (lhs_ty.diverges || rhs_ty.diverges));
                    assert(is_arithmetic_op_spec(*op) ==> result.ty == lhs_ty.ty);
                    assert((is_arithmetic_op_spec(*op) && simple_ty(lhs_ty.ty)) ==> if lhs_ty.ty.kind is Int && matching {
                        self.errors@ == mid
                    } else {
                        errors_view(self.errors@) == errors_view(mid).push((expr.span, "binary arithmetic expects matching integer operands"@))
                    });
                    assert(!is_arithmetic_op_spec(*op) ==> result.ty.kind is Bool);
                    assert((comparison && simple_ty(lhs_ty.ty)) ==> if matching {
                        self.errors@ == mid
                    } else {
                        errors_view(self.errors@) == errors_view(mid).push((expr.span, "comparison expects matching operand types"@))
                    });
                    assert((!is_arithmetic_op_spec(*op) && !comparison) ==> if lhs_ty.ty.kind is Bool && rhs_ty.ty.kind is Bool {
                        self.errors@ == mid
                    } else {
                        errors_view(self.errors@) == errors_view(mid).push((expr.span, "logical operator expects bool operands"@))
                    });
                    assert(binary_typed(*op, expr.span, lhs_ty, rhs_ty, mid, self.errors@, result));
                }
                result
            },
            ExprKind::Call { callee, args } => {
                self.check_call(expr.span, callee, args, scope, locals, expected_ret, fuel - 1)
            },
            ExprKind::MethodCall { receiver, method, args } => {
                self.check_method_call(expr.span, receiver, method, args, scope, locals, expected_ret, fuel - 1)
            },
            ExprKind::StructLit { path, fields } => {
                self.check_struct_lit(expr.span, path, fields, scope, locals, fuel - 1)
            },
            ExprKind::EnumCtor { enum_path, variant, args } => {
                self.check_enum_ctor(expr.span, enum_path, variant, args, scope, locals, expected_ret, fuel - 1)
            },
            ExprKind::Field { base, name } => {
                let base_ty = self.check_expr(base, scope, locals, expected_ret, fuel - 1);
                match self.lookup_field_type(&base_ty.ty, name) {
                    Some(field_ty) => ExprTy { ty: field_ty, diverges: base_ty.diverges },
                    None => {
                        self.error(expr.span, ty_name_message("type `", &base_ty.ty, "` has no field `", name.as_str(), "`"));
                        error_ty(expr.span)
                    },
                }
            },
            ExprKind::Index { base, index } => {
                let base_ty = self.check_expr(base, scope, locals, expected_ret, fuel - 1);
                let index_ty = self.check_expr(index, scope, locals, expected_ret, fuel - 1);
                if !is_int(&index_ty.ty) {
                    self.error(index.span, owned("array index must be an integer"));
                }
                match &base_ty.ty.kind {
                    TyKind::Array { elem, .. } => ExprTy {
                        ty: crate::ast::clone_ty(elem),
                        diverges: base_ty.diverges || index_ty.diverges,
                    },
                    _ => {
                        self.error(base.span, owned("indexing requires an array value"));
                        error_ty(expr.span)
                    },
                }
            },
            ExprKind::Match { scrutinee, arms } => {
                self.check_match(expr.span, scrutinee, arms, scope, locals, expected_ret, fuel - 1)
            },
            ExprKind::If { cond, then_branch, else_branch } => {
                let cond_ty = self.check_expr(cond, scope, locals, expected_ret, fuel - 1);
                if !is_bool(&cond_ty.ty) {
                    self.error(cond.span, owned("if condition must be bool"));
                }
                let then_ty = self.check_block(then_branch, scope, locals, expected_ret, fuel - 1);
                let else_ty = match else_branch {
                    Some(block) => self.check_block(block, scope, locals, expected_ret, fuel - 1),
                    None => plain(Node::new(expr.span, TyKind::Unit)),
                };
                let ghost mid = self.errors@;
                if !then_ty.diverges && !else_ty.diverges {
                    let same = self.ty_eq(&then_ty.ty, &else_ty.ty, scope);
                    if !same {
                        self.error(expr.span, owned("if branches must have the same type"));
                        proof {
                            if simple_ty(then_ty.ty) {
                                assert(errors_view(self.errors@) =~= errors_view(mid).push((expr.span, "if branches must have the same type"@)));
                            }
                        }
                    }
                }
                let diverges = then_ty.diverges && else_ty.diverges;
                let ghost branches = (then_ty, else_ty);
                let r = if then_ty.diverges {
                    ExprTy { ty: else_ty.ty, diverges }
                } else {
                    ExprTy { ty: then_ty.ty, diverges }
                };
                proof {
                    assert(if_typed(branches.0, branches.1, r));
                    assert(if_errors(branches.0, branches.1, mid, self.errors@, expr.span));
                }
                r
            },
            ExprKind::Block(block) => self.check_block(block, scope, locals, expected_ret, fuel - 1),
            ExprKind::Return(value) => {
                let value_ty = match value {
                    Some(v) => self.check_expr(v, scope, locals, expected_ret, fuel - 1).ty,
                    None => Node::new(expr.span, TyKind::Unit),
                };
                if !self.ty_eq(&value_ty, expected_ret, scope) {
                    self.error(expr.span, ty_message2("return has type `", &value_ty, "`, expected `", expected_ret, "`"));
                }
                ExprTy { ty: Node::new(expr.span, TyKind::Never), diverges: true }
            },
            ExprKind::Assign { lhs, rhs } => {
                let lhs_ty = self.check_expr(lhs, scope, locals, expected_ret, fuel - 1);
                let rhs_ty = self.check_expr(rhs, scope, locals, expected_ret, fuel - 1);
                if !self.ty_eq(&lhs_ty.ty, &rhs_ty.ty, scope) {
                    self.error(expr.span, owned("assignment types do not match"));
                }
                ExprTy { ty: Node::new(expr.span, TyKind::Unit), diverges: lhs_ty.diverges || rhs_ty.diverges }
            },
            ExprKind::Todo => ExprTy { ty: Node::new(expr.span, TyKind::Never), diverges: true },
        }
    }

    /// A call: of a named function, or of a value of function type.
    fn check_call(&mut self, span: Span, callee: &Expr, args: &Vec<Expr>, scope: &GenericScope, locals: &mut Vec<(String, Ty)>, expected_ret: &Ty, fuel: u64) -> (r: ExprTy)
        ensures
            errors_kept(old(self).errors@, final(self).errors@),
            state_kept(*old(self), *final(self)),
            fuel > 1 ==> (callee.kind matches ExprKind::Var(n) ==> (table_lookup(old(self).fns@, n@) matches Some(f)
                ==> fn_call_outcome(old(self).errors@, final(self).errors@, span, n@, *f, args@.len() as int, r))),
        decreases fuel,
    {
        if fuel == 0 {
            return error_ty(span);
        }
        if let ExprKind::Var(name) = &callee.kind {
            if let Some(fn_item) = table_get(&self.fns, name.as_str()) {
                return self.check_fn_call(span, name, fn_item, args, scope, locals, fuel - 1);
            }
        }
        let callee_ty = self.check_expr(callee, scope, locals, expected_ret, fuel - 1);
        match &callee_ty.ty.kind {
            TyKind::Fn { params, ret } => {
                if params.len() != args.len() {
                    self.error(span, count_message("function value expects ", params.len(), " arguments"));
                }
                let mut i: usize = 0;
                while i < args.len() && i < params.len()
                    invariant
                        errors_kept(old(self).errors@, self.errors@),
                        state_kept(*old(self), *self),
                        0 <= i <= args@.len(),
                        fuel > 0,
                    decreases args@.len() - i,
                {
                    let actual = self.check_expr(&args[i], scope, locals, &params[i], fuel - 1);
                    if !self.ty_eq(&actual.ty, &params[i], scope) {
                        self.error(args[i].span, owned("function argument type mismatch"));
                    }
                    i = i + 1;
                }
                plain(crate::ast::clone_ty(ret))
            },
            _ => {
                self.error(callee.span, owned("callee is not a function"));
                error_ty(span)
            },
        }
    }

    /// A call of the top-level function `fn_item`, named `name`.
    fn check_fn_call(&mut self, span: Span, name: &String, fn_item: &FnItem, args: &Vec<Expr>, scope: &GenericScope, locals: &mut Vec<(String, Ty)>, fuel: u64) -> (r: ExprTy)
        ensures
            errors_kept(old(self).errors@, final(self).errors@),
            state_kept(*old(self), *final(self)),
            fuel > 0 ==> fn_call_outcome(old(self).errors@, final(self).errors@, span, name@, *fn_item, args@.len() as int, r),
        decreases fuel,
    {
        if fuel == 0 {
            return error_ty(span);
        }
        if fn_item.kind.params.len() != args.len() {
            self.error(span, name_count_message("function `", name.as_str(), "` expects ", fn_item.kind.params.len(), " arguments"));
        }
        let ghost first = if fn_item.kind.params@.len() != args@.len() { Some(self.errors@.last()) } else { None };
        let mut i: usize = 0;
        while i < args.len() && i < fn_item.kind.params.len()
            invariant
                errors_kept(old(self).errors@, self.errors@),
                state_kept(*old(self), *self),
                0 <= i <= args@.len(),
                fuel > 0,
                first matches Some(e) ==> self.errors@.len() > old(self).errors@.len()
                    && self.errors@[old(self).errors@.len() as int] == e,
            decreases args@.len() - i,
        {
            let param = &fn_item.kind.params[i];
            let actual = self.check_expr(&args[i], scope, locals, &param.kind.ty, fuel - 1);
            if !self.ty_eq(&actual.ty, &param.kind.ty, scope) {
                self.error(args[i].span, ty_message2("argument has type `", &actual.ty, "`, expected `", &param.kind.ty, "`"));
            }
            i = i + 1;
        }
        plain(crate::ast::clone_ty(&fn_item.kind.ret))
    }

    /// A method call, resolved through bounds in scope and impls.
    fn check_method_call(&mut self, span: Span, receiver: &Expr, method: &String, args: &Vec<Expr>, scope: &GenericScope, locals: &mut Vec<(String, Ty)>, expected_ret: &Ty, fuel: u64) -> (r: ExprTy)
        ensures
            errors_kept(old(self).errors@, final(self).errors@),
            state_kept(*old(self), *final(self)),
            fuel == 0 ==> r.diverges && r.ty.kind is Never && r.ty.span == span,
            fuel > 0 && r.diverges ==> r.ty.kind is Never && r.ty.span == span
                && final(self).errors@.len() > old(self).errors@.len() && final(self).errors@.last().0 == span,
            fuel > 0 && scope.obligations@.len() == 0 && old(self).impls@.len() == 0 ==> r.diverges,
        decreases fuel,
    {
        if fuel == 0 {
            return error_ty(span);
        }
        let receiver_ty = self.check_expr(receiver, scope, locals, expected_ret, fuel - 1).ty;
        let self_ty = match peel_ref(&receiver_ty) {
            Some(t) => crate::ast::clone_ty(t),
            None => crate::ast::clone_ty(&receiver_ty),
        };
        let (sig, impl_self_ty) = match self.find_method(&self_ty, method, scope) {
            Some(found) => found,
            None => {
                self.error(span, name_ty_message("no method `", method.as_str(), "` found for `", &self_ty, "`"));
                return error_ty(span);
            },
        };
        if let Some(recv) = &sig.kind.receiver {
            let expected_receiver = match recv.kind {
                ReceiverKind::ByValue => crate::ast::clone_ty(&impl_self_ty),
                ReceiverKind::ByRef { mutability } => Node::new(receiver_ty.span, TyKind::Ref {
                    mutability,
                    ty: Box::new(crate::ast::clone_ty(&impl_self_ty)),
                }),
            };
            if !self.ty_eq(&receiver_ty, &expected_receiver, scope) {
                self.error(receiver.span, ty_message2("method receiver has type `", &receiver_ty, "`, expected `", &expected_receiver, "`"));
            }
        }
        if sig.kind.params.len() != args.len() {
            self.error(span, name_count_message("method `", method.as_str(), "` expects ", sig.kind.params.len(), " arguments"));
        }
        let mut i: usize = 0;
        while i < args.len() && i < sig.kind.params.len()
            invariant
                errors_kept(old(self).errors@, self.errors@),
                state_kept(*old(self), *self),
                0 <= i <= args@.len(),
                fuel > 0,
            decreases args@.len() - i,
        {
            let expected = substitute_self(&sig.kind.params[i].kind.ty, &impl_self_ty);
            let actual = self.check_expr(&args[i], scope, locals, &expected, fuel - 1);
            if !self.ty_eq(&actual.ty, &expected, scope) {
                self.error(args[i].span, ty_message2("argument has type `", &actual.ty, "`, expected `", &expected, "`"));
            }
            i = i + 1;
        }
        plain(substitute_self(&sig.kind.ret, &impl_self_ty))
    }

    /// A struct literal: each field once, each known, each of its declared
    /// type, none missing.
    fn check_struct_lit(&mut self, span: Span, path: &Path, fields: &Vec<crate::ast::FieldExpr>, scope: &GenericScope, locals: &mut Vec<(String, Ty)>, fuel: u64) -> (r: ExprTy)
        ensures
            errors_kept(old(self).errors@, final(self).errors@),
            state_kept(*old(self), *final(self)),
            fuel > 0 && table_lookup(old(self).structs@, join_segments(path.kind.segment_views())) is None
                ==> r.ty.kind is Never && r.diverges && errors_view(final(self).errors@) == errors_view(old(self).errors@)
                    .push((path.span, "unknown struct `"@ + join_segments(path.kind.segment_views()) + "`"@)),
        decreases fuel,
    {
        if fuel == 0 {
            return error_ty(span);
        }
        let name = path_name(path);
        let struct_item = match table_get(&self.structs, name.as_str()) {
            Some(item) => item,
            None => {
                self.error(path.span, cat3("unknown struct `", name.as_str(), "`"));
                proof {
                    assert(errors_view(self.errors@) =~= errors_view(old(self).errors@)
                        .push((path.span, "unknown struct `"@ + name@ + "`"@)));
                }
                return error_ty(span);
            },
        };
        let mut seen_fields: Vec<String> = Vec::new();
        let mut i: usize = 0;
        while i < fields.len()
            invariant
                errors_kept(old(self).errors@, self.errors@),
                state_kept(*old(self), *self),
                0 <= i <= fields@.len(),
                fuel > 0,
            decreases fields@.len() - i,
        {
            let field = &fields[i];
            if !insert_name(&mut seen_fields, &field.kind.name) {
                self.error(field.span, cat3("duplicate field `", field.kind.name.as_str(), "`"));
            } else {
                match find_field(&struct_item.kind.fields, field.kind.name.as_str()) {
                    Some(expected) => {
                        let actual = self.check_expr(&field.kind.expr, scope, locals, &expected.kind.ty, fuel - 1);
                        if !self.ty_eq(&actual.ty, &expected.kind.ty, scope) {
                            self.error(field.kind.expr.span, named_ty_message2("field `", field.kind.name.as_str(), "` has type `", &actual.ty, "`, expected `", &expected.kind.ty, "`"));
                        }
                    },
                    None => {
                        self.error(field.span, cat3("unknown field `", field.kind.name.as_str(), "`"));
                    },
                }
            }
            i = i + 1;
        }
        let mut k: usize = 0;
        while k < struct_item.kind.fields.len()
            invariant
                errors_kept(old(self).errors@, self.errors@),
                state_kept(*old(self), *self),
                0 <= k <= struct_item.kind.fields@.len(),
            decreases struct_item.kind.fields@.len() - k,
        {
            let expected = &struct_item.kind.fields[k];
            if !contains_name(&seen_fields, expected.kind.name.as_str()) {
                self.error(span, cat5("missing field `", expected.kind.name.as_str(), "` for struct `", struct_item.kind.name.as_str(), "`"));
            }
            k = k + 1;
        }
        plain(Node::new(span, TyKind::Path { path: crate::ast::clone_path(path), args: Vec::new() }))
    }

    /// An enum constructor; type parameters of the enum are inferred from
    /// the arguments.
    fn check_enum_ctor(&mut self, span: Span, enum_path: &Path, variant: &String, args: &EnumCtorArgs, scope: &GenericScope, locals: &mut Vec<(String, Ty)>, expected_ret: &Ty, fuel: u64) -> (r: ExprTy)
        ensures
            errors_kept(old(self).errors@, final(self).errors@),
            state_kept(*old(self), *final(self)),
            fuel > 0 ==> enum_ctor_outcome(old(self).enums@, old(self).fns@, old(self).structs@,
                old(self).errors@, final(self).errors@, span, *enum_path, variant@, *args, r),
            fuel > 1 ==> (table_lookup(old(self).enums@, join_segments(enum_path.kind.segment_views())) matches Some(e)
                ==> (first_variant(e.kind.variants@, variant@) matches Some(v)
                ==> (v.kind.payload.kind matches VariantPayloadKind::Tuple(tys)
                ==> (args.kind matches EnumCtorArgsKind::Tuple(actual)
                ==> ctor_args_inferred(e.kind.generics@, tys@, actual@, *expected_ret, span, r.ty))))),
            fuel > 1 ==> (table_lookup(old(self).enums@, join_segments(enum_path.kind.segment_views())) matches Some(e)
                ==> (first_variant(e.kind.variants@, variant@) matches Some(v)
                ==> (v.kind.payload.kind matches VariantPayloadKind::Tuple(tys)
                ==> (args.kind matches EnumCtorArgsKind::Tuple(actual)
                ==> ((tys@.len() == actual@.len() && distinct_param_payload(tys@, e.kind.generics@)
                    && forall|j: int| 0 <= j < actual@.len() ==> #[trigger] quiet_literal(actual@[j], *expected_ret))
                    ==> final(self).errors@ == old(self).errors@))))),
        decreases fuel,
    {
        if fuel == 0 {
            return error_ty(span);
        }
        let enum_name = path_name(enum_path);
        let enum_item = match table_get(&self.enums, enum_name.as_str()) {
            Some(item) => item,
            None => {
                // `m::f(..)` and `m::S { .. }` parse as constructors; with no
                // enum `m` they name a qualified function or struct.
                let qualified = cat3(enum_name.as_str(), "::", variant.as_str());
                match &args.kind {
                    EnumCtorArgsKind::Tuple(actual) => {
                        if let Some(fn_item) = table_get(&self.fns, qualified.as_str()) {
                            return self.check_fn_call(span, &qualified, fn_item, actual, scope, locals, fuel - 1);
                        }
                    },
                    EnumCtorArgsKind::Struct(fields) => {
                        if table_get(&self.structs, qualified.as_str()).is_some() {
                            let mut segments = enum_path.kind.segments.clone();
                            segments.push(variant.clone());
                            let path = Node::new(enum_path.span, PathKind { segments });
                            return self.check_struct_lit(span, &path, fields, scope, locals, fuel - 1);
                        }
                    },
                    EnumCtorArgsKind::Unit => {},
                }
                self.error(enum_path.span, cat3("unknown enum `", enum_name.as_str(), "`"));
                proof {
                    assert(errors_view(self.errors@) =~= errors_view(old(self).errors@)
                        .push((enum_path.span, "unknown enum `"@ + enum_name@ + "`"@)));
                }
                return error_ty(span);
            },
        };
        let variant_decl = match find_variant(&enum_item.kind.variants, variant.as_str()) {
            Some(v) => v,
            None => {
                self.error(span, cat5("unknown variant `", variant.as_str(), "` for enum `", enum_name.as_str(), "`"));
                proof {
                    assert(errors_view(self.errors@) =~= errors_view(old(self).errors@)
                        .push((span, "unknown variant `"@ + variant@ + "` for enum `"@ + enum_name@ + "`"@)));
                }
                return error_ty(span);
            },
        };
        // The enum's own type parameters are inferred from the arguments.
        let enum_params = scope_from_generics(&enum_item.kind.generics, &enum_item.kind.where_predicates).type_params;
        let mut substitutions: Vec<(String, Ty)> = Vec::new();
        match (&variant_decl.kind.payload.kind, &args.kind) {
            (VariantPayloadKind::Unit, EnumCtorArgsKind::Unit) => {},
            (VariantPayloadKind::Tuple(expected), EnumCtorArgsKind::Tuple(actual)) => {
                if expected.len() != actual.len() {
                    self.error(span, name_count_message("variant `", variant.as_str(), "` expects ", expected.len(), " arguments"));
                }
                let ghost quiet = fuel > 1 && expected@.len() == actual@.len()
                    && distinct_param_payload(expected@, enum_item.kind.generics@)
                    && forall|j: int| 0 <= j < actual@.len() ==> #[trigger] quiet_literal(actual@[j], *expected_ret);
                let mut i: usize = 0;
                let ghost mut checked: Seq<Ty> = Seq::empty();
                while i < expected.len() && i < actual.len()
                    invariant
                        errors_kept(old(self).errors@, self.errors@),
                        state_kept(*old(self), *self),
                        0 <= i <= expected@.len(),
                        i <= actual@.len(),
                        fuel > 0,
                        checked.len() == i,
                        fuel > 1 ==> forall|j: int| 0 <= j < i ==> ((#[trigger] actual@[j]).kind is IntLit
                            ==> checked[j].kind == TyKind::Int(literal_int_ty(*expected_ret))),
                        forall|nm: Seq<char>| #[trigger] table_lookup(substitutions@, nm) is Some ==> has_name(enum_params@, nm),
                        forall|nm: Seq<char>| #[trigger] has_name(enum_params@, nm) ==> match first_bare_position(expected@, nm, i as int) {
                            Some(j) => table_lookup(substitutions@, nm) matches Some(t) && ty_same(t, checked[j]),
                            None => table_lookup(substitutions@, nm) is None,
                        },
                        quiet == (fuel > 1 && expected@.len() == actual@.len()
                            && distinct_param_payload(expected@, enum_item.kind.generics@)
                            && forall|j: int| 0 <= j < actual@.len() ==> #[trigger] quiet_literal(actual@[j], *expected_ret)),
                        quiet ==> self.errors@ == old(self).errors@,
                        forall|nm: Seq<char>| #[trigger] has_name(enum_params@, nm) <==> type_param_named(enum_item.kind.generics@, nm),
                    decreases expected@.len() - i,
                {
                    let actual_ty = self.check_expr(&actual[i], scope, locals, expected_ret, fuel - 1).ty;
                    proof {
                        if quiet {
                            assert(quiet_literal(actual@[i as int], *expected_ret));
                            let nm = bare_name(expected@[i as int])->0;
                            assert(bare_name(expected@[i as int]) matches Some(x) && type_param_named(enum_item.kind.generics@, x));
                            assert(has_name(enum_params@, nm));
                            lemma_first_bare_position(expected@, nm, i as int);
                            if let Some(j) = first_bare_position(expected@, nm, i as int) {
                                assert(bare_name(expected@[j]) != bare_name(expected@[i as int]));
                            }
                            assert(table_lookup(substitutions@, nm) is None);
                        }
                    }
                    let ghost subs_before = substitutions@;
                    self.unify_variant_ty(&expected[i], &actual_ty, &mut substitutions, &enum_params, scope, actual[i].span);
                    proof {
                        let prev = checked;
                        checked = checked.push(actual_ty);
                        assert forall|j: int| fuel > 1 && 0 <= j < i + 1 && (#[trigger] actual@[j]).kind is IntLit
                            implies checked[j].kind == TyKind::Int(literal_int_ty(*expected_ret)) by {
                            if j < i {
                                assert(checked[j] == prev[j]);
                            }
                        }
                        assert forall|nm: Seq<char>| #[trigger] table_lookup(substitutions@, nm) is Some implies has_name(enum_params@, nm) by {
                            if table_lookup(subs_before, nm) is None {
                                assert(is_bare_name(expected@[i as int], nm));
                            }
                        }
                        assert forall|nm: Seq<char>| #[trigger] has_name(enum_params@, nm) implies match first_bare_position(expected@, nm, i + 1) {
                            Some(j) => table_lookup(substitutions@, nm) matches Some(t) && ty_same(t, checked[j]),
                            None => table_lookup(substitutions@, nm) is None,
                        } by {
                            assert(first_bare_position(expected@, nm, i + 1) == match first_bare_position(expected@, nm, i as int) {
                                Some(j) => Some(j),
                                None => if is_bare_name(expected@[i as int], nm) { Some(i as int) } else { None },
                            });
                            lemma_first_bare_position(expected@, nm, i as int);
                            match first_bare_position(expected@, nm, i as int) {
                                Some(j) => {
                                    assert(checked[j] == prev[j]);
                                },
                                None => {},
                            }
                        }
                    }
                    i = i + 1;
                }
                proof {
                    assert(i as int == min_len(expected@.len() as int, actual@.len() as int));
                    assert forall|nm: Seq<char>| fuel > 1 && #[trigger] has_name(enum_params@, nm) implies match first_bare_position(expected@, nm, i as int) {
                        Some(j) => table_lookup(substitutions@, nm) matches Some(t)
                            && (actual@[j].kind is IntLit ==> t.kind == TyKind::Int(literal_int_ty(*expected_ret))),
                        None => table_lookup(substitutions@, nm) is None,
                    } by {
                        lemma_first_bare_position(expected@, nm, i as int);
                        if let Some(j) = first_bare_position(expected@, nm, i as int) {
                            if actual@[j].kind is IntLit {
                                let t = table_lookup(substitutions@, nm)->0;
                                assert(ty_same(t, checked[j]));
                                assert(checked[j].kind == TyKind::Int(literal_int_ty(*expected_ret)));
                            }
                        }
                    }
                    assert(fuel > 1 ==> subs_from_args(substitutions@, enum_params@, expected@, actual@, *expected_ret));
                }
            },
            (VariantPayloadKind::Struct(expected), EnumCtorArgsKind::Struct(actual)) => {
                let mut seen_fields: Vec<String> = Vec::new();
                let mut i: usize = 0;
                while i < actual.len()
                    invariant
                        errors_kept(old(self).errors@, self.errors@),
                        state_kept(*old(self), *self),
                        0 <= i <= actual@.len(),
                    decreases actual@.len() - i,
                {
                    let actual_field = &actual[i];
                    if !insert_name(&mut seen_fields, &actual_field.kind.name) {
                        self.error(actual_field.span, cat5("duplicate field `", actual_field.kind.name.as_str(), "` for variant `", variant.as_str(), "`"));
                    } else if find_field(expected, actual_field.kind.name.as_str()).is_none() {
                        self.error(actual_field.span, cat5("unknown field `", actual_field.kind.name.as_str(), "` for variant `", variant.as_str(), "`"));
                    }
                    i = i + 1;
                }
                let mut k: usize = 0;
                while k < expected.len()
                    invariant
                        errors_kept(old(self).errors@, self.errors@),
                        state_kept(*old(self), *self),
                        0 <= k <= expected@.len(),
                        fuel > 0,
                    decreases expected@.len() - k,
                {
                    let expected_field = &expected[k];
                    match find_field_expr(actual, expected_field.kind.name.as_str()) {
                        Some(j) => {
                            let actual_field = &actual[j];
                            let actual_ty = self.check_expr(&actual_field.kind.expr, scope, locals, &expected_field.kind.ty, fuel - 1).ty;
                            self.unify_variant_ty(&expected_field.kind.ty, &actual_ty, &mut substitutions, &enum_params, scope, actual_field.span);
                        },
                        None => {
                            self.error(span, cat5("missing field `", expected_field.kind.name.as_str(), "` for variant `", variant.as_str(), "`"));
                        },
                    }
                    k = k + 1;
                }
            },
            _ => {
                self.error(span, cat3("variant `", variant.as_str(), "` payload form does not match constructor"));
                proof {
                    assert(errors_view(self.errors@) =~= errors_view(old(self).errors@)
                        .push((span, "variant `"@ + variant@ + "` payload form does not match constructor"@)));
                }
            },
        }
        let ghost subs_done = substitutions@;
        let ghost errors_done = self.errors@;
        proof {
            assert(fuel > 1 ==> (variant_decl.kind.payload.kind matches VariantPayloadKind::Tuple(tys)
                ==> (args.kind matches EnumCtorArgsKind::Tuple(actual)
                ==> subs_from_args(subs_done, enum_params@, tys@, actual@, *expected_ret))));
        }
        let mut generic_args: Vec<GenericArg> = Vec::new();
        let mut g: usize = 0;
        while g < enum_item.kind.generics.len()
            invariant
                errors_kept(old(self).errors@, self.errors@),
                state_kept(*old(self), *self),
                0 <= g <= enum_item.kind.generics@.len(),
                generic_args@.len() == g,
                substitutions@ == subs_done,
                self.errors@ == errors_done,
                forall|h: int| 0 <= h < g ==> ((#[trigger] enum_item.kind.generics@[h]).kind matches GenericParamKind::Type { name, .. }
                    ==> (generic_args@[h].kind matches GenericArgKind::Ty(t)
                        && (table_lookup(subs_done, name@) matches Some(sv) ==> ty_same(t, sv))
                        && (table_lookup(subs_done, name@) is None ==> t.span == span && is_bare_name(t, name@)))),
            decreases enum_item.kind.generics@.len() - g,
        {
            match &enum_item.kind.generics[g].kind {
                GenericParamKind::Type { name, .. } => {
                    let ty = match locals_get(&substitutions, name.as_str()) {
                        Some(t) => crate::ast::clone_ty(t),
                        None => Node::new(span, TyKind::Path { path: synthetic_path(name.clone()), args: Vec::new() }),
                    };
                    let arg_span = ty.span;
                    generic_args.push(Node::new(arg_span, GenericArgKind::Ty(ty)));
                },
                GenericParamKind::Const { name, .. } => {
                    generic_args.push(Node::new(span, GenericArgKind::Const(Node::new(span, ConstExprKind::Param(name.clone())))));
                },
            }
            g = g + 1;
        }
        let r = plain(Node::new(span, TyKind::Path { path: crate::ast::clone_path(enum_path), args: generic_args }));
        proof {
            if fuel > 1 {
                if let VariantPayloadKind::Tuple(tys) = &variant_decl.kind.payload.kind {
                    if let EnumCtorArgsKind::Tuple(actual) = &args.kind {
                        let gens = enum_item.kind.generics@;
                        let n = min_len(tys@.len() as int, actual@.len() as int);
                        assert forall|h: int| 0 <= h < gens.len() && ((#[trigger] gens[h]).kind matches GenericParamKind::Type { name, .. })
                            implies (generic_args@[h].kind matches GenericArgKind::Ty(t) && match first_bare_position(tys@, gens[h].kind->Type_name@, n) {
                                Some(j) => actual@[j].kind is IntLit ==> t.kind == TyKind::Int(literal_int_ty(*expected_ret)),
                                None => t.span == span && is_bare_name(t, gens[h].kind->Type_name@),
                            }) by {
                            let name = gens[h].kind->Type_name;
                            assert(is_type_param_named(gens[h], name@));
                            assert(has_name(enum_params@, name@));
                            let t = generic_args@[h].kind->Ty_0;
                            if let Some(j) = first_bare_position(tys@, name@, n) {
                                if actual@[j].kind is IntLit {
                                    let sv = table_lookup(subs_done, name@)->0;
                                    assert(ty_same(t, sv));
                                    assert(sv.kind == TyKind::Int(literal_int_ty(*expected_ret)));
                                }
                            }
                        }
                    }
                }
            }
        }
        r
    }

    /// Matches a declared payload type against the type of the argument
    /// given for it, binding type parameters on first use.
    fn unify_variant_ty(&mut self, expected: &Ty, actual: &Ty, substitutions: &mut Vec<(String, Ty)>, params: &Vec<String>, scope: &GenericScope, span: Span)
        ensures
            errors_kept(old(self).errors@, final(self).errors@),
            state_kept(*old(self), *final(self)),
            ({
                let param = expected.kind matches TyKind::Path { path, args } && path.kind.segments@.len() == 1 && args@.len() == 0
                    && (has_name(params@, path.kind.segments@[0]@)
                        || table_lookup(old(substitutions)@, path.kind.segments@[0]@) is Some);
                &&& !param ==> final(substitutions)@ == old(substitutions)@
                &&& param ==> {
                    let name = expected.kind->Path_path.kind.segments@[0]@;
                    &&& table_lookup(old(substitutions)@, name) is Some ==> final(substitutions)@ == old(substitutions)@
                    &&& table_lookup(old(substitutions)@, name) is None ==> (final(self).errors@ == old(self).errors@
                        && (table_lookup(final(substitutions)@, name) matches Some(t) && ty_same(t, *actual)
                            && (forall|s: Seq<char>| ty_text_with(t, s) == ty_text_with(*actual, s)))
                        && forall|n: Seq<char>| n != name ==> #[trigger] table_lookup(final(substitutions)@, n)
                            == table_lookup(old(substitutions)@, n))
                }
            }),
    {
        if let TyKind::Path { path, args } = &expected.kind {
            if path.kind.segments.len() == 1 && args.len() == 0 {
                let name = &path.kind.segments[0];
                let bound = locals_get(substitutions, name.as_str()).is_some();
                if contains_name(params, name.as_str()) || bound {
                    match locals_get(substitutions, name.as_str()) {
                        Some(existing) => {
                            let existing = crate::ast::clone_ty(existing);
                            if !self.ty_eq(&existing, actual, scope) {
                                self.error(span, cat3("conflicting inference for type parameter `", name.as_str(), "`"));
                            }
                        },
                        None => {
                            locals_insert(substitutions, name, crate::ast::clone_ty(actual));
                        },
                    }
                    return;
                }
            }
        }
        if !self.ty_eq(expected, actual, scope) {
            self.error(span, ty_message2("constructor argument has type `", actual, "`, expected `", expected, "`"));
        }
    }

    /// A match: every arm checked with its pattern's bindings, arms of one
    /// type, and every variant of an enum covered.
    fn check_match(&mut self, span: Span, scrutinee: &Expr, arms: &Vec<MatchArm>, scope: &GenericScope, locals: &mut Vec<(String, Ty)>, expected_ret: &Ty, fuel: u64) -> (r: ExprTy)
        ensures
            errors_kept(old(self).errors@, final(self).errors@),
            state_kept(*old(self), *final(self)),
            fuel == 0 ==> r.diverges && r.ty.kind is Never && r.ty.span == span,
            fuel > 0 ==> !r.diverges,
            fuel > 0 && arms@.len() == 0 ==> r.ty.kind is Never && r.ty.span == span,
            fuel > 1 && arms@.len() > 0 && arms@[0].kind.body.kind is BoolLit ==> r.ty.kind is Bool,
            fuel > 1 && arms@.len() > 0 && arms@[0].kind.body.kind is UnitLit ==> r.ty.kind is Unit,
            fuel > 1 ==> (scrutinee.kind matches ExprKind::Var(n) ==> (table_lookup(old(locals)@, n@) matches Some(t)
                ==> (leaves_variant_unmatched(old(self).enums@, t, arms@)
                    ==> exists|v: Seq<char>| #[trigger] reported(final(self).errors@, not_exhaustive_error(span, v))))),
        decreases fuel,
    {
        if fuel == 0 {
            return error_ty(span);
        }
        let ghost locals0 = locals@;
        let scrutinee_ty = self.check_expr(scrutinee, scope, locals, expected_ret, fuel - 1).ty;
        let mut result_ty: Option<Ty> = None;
        let mut seen_variants: Vec<String> = Vec::new();
        let mut has_wildcard = false;
        let mut i: usize = 0;
        while i < arms.len()
            invariant
                errors_kept(old(self).errors@, self.errors@),
                state_kept(*old(self), *self),
                0 <= i <= arms@.len(),
                fuel > 0,
                i == 0 ==> result_ty is None,
                fuel > 1 && i > 0 && arms@[0].kind.body.kind is BoolLit ==> (result_ty matches Some(t) && t.kind is Bool),
                fuel > 1 && i > 0 && arms@[0].kind.body.kind is UnitLit ==> (result_ty matches Some(t) && t.kind is Unit),
                forall|n: Seq<char>| #[trigger] has_name(seen_variants@, n) ==> arm_names_variant(arms@, n),
                has_wildcard ==> has_catch_all_arm(arms@),
                self.enums@ == old(self).enums@,
            decreases arms@.len() - i,
        {
            let arm = &arms[i];
            let ghost seen_before = seen_variants@;
            let mut arm_locals = copy_locals(locals);
            if self.check_pat(&arm.kind.pat, &scrutinee_ty, scope, &mut arm_locals, &mut seen_variants) {
                has_wildcard = true;
            }
            proof {
                assert forall|n: Seq<char>| #[trigger] has_name(seen_variants@, n) implies arm_names_variant(arms@, n) by {
                    if !has_name(seen_before, n) {
                        assert(arms@[i as int] == *arm);
                    }
                }
                if has_wildcard && !has_catch_all_arm(arms@) {
                    assert(arms@[i as int] == *arm);
                }
            }
            let body_ty = self.check_expr(&arm.kind.body, scope, &mut arm_locals, expected_ret, fuel - 1);
            match &result_ty {
                Some(existing) => {
                    if !body_ty.diverges && !self.ty_eq(existing, &body_ty.ty, scope) {
                        self.error(arm.kind.body.span, owned("match arms must have the same type"));
                    }
                },
                None => {
                    if !body_ty.diverges {
                        result_ty = Some(body_ty.ty);
                    }
                },
            }
            i = i + 1;
        }
        let ghost errors_before = self.errors@;
        self.check_match_exhaustive(span, &scrutinee_ty, &seen_variants, has_wildcard);
        proof {
            if fuel > 1 {
                if let ExprKind::Var(n) = &scrutinee.kind {
                    if table_lookup(locals0, n@) matches Some(t) && leaves_variant_unmatched(old(self).enums@, t, arms@) {
                        let t = table_lookup(locals0, n@)->0;
                        assert(ty_same(scrutinee_ty, t));
                        let e = table_lookup(old(self).enums@, join_segments(t.kind->Path_path.kind.segment_views()))->0;
                        let k = choose|k: int| 0 <= k < e.kind.variants@.len() && !arm_names_variant(arms@, (#[trigger] e.kind.variants@[k]).kind.name@);
                        assert(!has_name(seen_variants@, e.kind.variants@[k].kind.name@));
                        lemma_first_unseen_found(e.kind.variants@, seen_variants@, 0, k);
                        let v = missing_variant(old(self).enums@, scrutinee_ty, seen_variants@, has_wildcard)->0;
                        let last = self.errors@.len() - 1;
                        assert(self.errors@[last] == (span, self.errors@.last().1));
                        assert((self.errors@[last].0, self.errors@[last].1@) == not_exhaustive_error(span, v));
                        assert(reported(self.errors@, not_exhaustive_error(span, v)));
                    }
                }
            }
        }
        match result_ty {
            Some(t) => plain(t),
            None => plain(Node::new(span, TyKind::Never)),
        }
    }

    /// Reports the first variant of the scrutinee's enum that no arm names,
    /// unless an arm matches everything.
    fn check_match_exhaustive(&mut self, span: Span, scrutinee_ty: &Ty, seen_variants: &Vec<String>, has_wildcard: bool)
        ensures
            errors_kept(old(self).errors@, final(self).errors@),
            state_kept(*old(self), *final(self)),
            final(self).errors@ == old(self).errors@ + match missing_variant(old(self).enums@, *scrutinee_ty, seen_variants@, has_wildcard) {
                Some(v) => seq![(span, final(self).errors@.last().1)],
                None => Seq::<(Span, String)>::empty(),
            },
            missing_variant(old(self).enums@, *scrutinee_ty, seen_variants@, has_wildcard) matches Some(v)
                ==> final(self).errors@.last().1@ == "match is not exhaustive: missing `"@ + v + "`"@,
    {
        if has_wildcard {
            proof {
                assert(self.errors@ =~= old(self).errors@ + Seq::<(Span, String)>::empty());
            }
            return;
        }
        if let TyKind::Path { path, .. } = &scrutinee_ty.kind {
            let enum_name = path_name(path);
            if let Some(enum_item) = table_get(&self.enums, enum_name.as_str()) {
                let mut i: usize = 0;
                proof {
                    assert(missing_variant(old(self).enums@, *scrutinee_ty, seen_variants@, has_wildcard)
                        == first_unseen(enum_item.kind.variants@, seen_variants@, 0));
                }
                while i < enum_item.kind.variants.len()
                    invariant
                        errors_kept(old(self).errors@, self.errors@),
                        state_kept(*old(self), *self),
                        0 <= i <= enum_item.kind.variants@.len(),
                        self.errors@ == old(self).errors@,
                        self.enums@ == old(self).enums@,
                        missing_variant(old(self).enums@, *scrutinee_ty, seen_variants@, has_wildcard)
                            == first_unseen(enum_item.kind.variants@, seen_variants@, i as int),
                    decreases enum_item.kind.variants@.len() - i,
                {
                    let name = &enum_item.kind.variants[i].kind.name;
                    if !contains_name(seen_variants, name.as_str()) {
                        self.error(span, cat3("match is not exhaustive: missing `", name.as_str(), "`"));
                        proof {
                            assert(self.errors@ =~= old(self).errors@ + seq![(span, self.errors@.last().1)]);
                        }
                        return;
                    }
                    i = i + 1;
                }
            }
        }
        proof {
            assert(self.errors@ =~= old(self).errors@ + Seq::<(Span, String)>::empty());
        }
    }

    /// A block: its statements in order, with `let` bindings visible to
    /// what follows them, then its tail.
    fn check_block(&mut self, block: &Block, scope: &GenericScope, locals: &mut Vec<(String, Ty)>, expected_ret: &Ty, fuel: u64) -> (r: ExprTy)
        ensures
            errors_kept(old(self).errors@, final(self).errors@),
            state_kept(*old(self), *final(self)),
            final(locals)@ == old(locals)@,
            fuel > 0 && block.kind.stmts@.len() == 0 && block.kind.tail is None
                ==> r.ty.kind is Unit && !r.diverges && final(self).errors@ == old(self).errors@,
            fuel > 1 ==> block_typed(*block, *expected_ret, r),
            (fuel > 2 && quiet_block(*block, *expected_ret)) ==> final(self).errors@ == old(self).errors@,
            (fuel > 3 && unmatched_tail(old(self).enums@, *block, old(locals)@)) ==> exists|v: Seq<char>|
                #[trigger] reported(final(self).errors@, not_exhaustive_error(block.kind.tail->0.span, v)),
        decreases fuel,
    {
        if fuel == 0 {
            return error_ty(block.span);
        }
        let mut block_locals = copy_locals(locals);
        let ghost copy0 = block_locals@;
        let mut diverges = false;
        let mut i: usize = 0;
        while i < block.kind.stmts.len()
            invariant
                errors_kept(old(self).errors@, self.errors@),
                state_kept(*old(self), *self),
                0 <= i <= block.kind.stmts@.len(),
                fuel > 0,
                block.kind.stmts@.len() == 0 ==> self.errors@ == old(self).errors@ && !diverges,
                i == 0 ==> block_locals@ == copy0,
                (fuel > 2 && forall|k: int| 0 <= k < i ==> #[trigger] quiet_stmt(block.kind.stmts@[k], *expected_ret))
                    ==> self.errors@ == old(self).errors@,
                fuel > 1 ==> forall|k: int| 0 <= k < i && #[trigger] stmt_leaves(block.kind.stmts@[k]) ==> diverges,
            decreases block.kind.stmts@.len() - i,
        {
            let ghost errs0 = self.errors@;
            match &block.kind.stmts[i].kind {
                StmtKind::Let(let_stmt) => {
                    let init_ty = match &let_stmt.kind.init {
                        Some(init) => Some(self.check_expr(init, scope, &mut block_locals, expected_ret, fuel - 1)),
                        None => None,
                    };
                    match &let_stmt.kind.ty {
                        Some(ty) => {
                            self.check_ty_wf(ty, scope, false);
                            if let Some(it) = &init_ty {
                                if !self.ty_eq(&it.ty, ty, scope) {
                                    self.error(let_stmt.span, ty_message2("let initializer has type `", &it.ty, "`, expected `", ty, "`"));
                                }
                            }
                            locals_insert(&mut block_locals, &let_stmt.kind.name, crate::ast::clone_ty(ty));
                        },
                        None => {
                            match init_ty {
                                Some(it) => locals_insert(&mut block_locals, &let_stmt.kind.name, it.ty),
                                None => {
                                    self.error(let_stmt.span, owned("let statement needs a type or initializer"));
                                },
                            }
                        },
                    }
                },
                StmtKind::Expr(e) | StmtKind::Semi(e) => {
                    let ty = self.check_expr(e, scope, &mut block_locals, expected_ret, fuel - 1);
                    diverges = diverges || ty.diverges;
                },
            }
            proof {
                if fuel > 1 && stmt_leaves(block.kind.stmts@[i as int]) {
                    assert(diverges);
                }
                if fuel > 2 && forall|k: int| 0 <= k < i + 1 ==> #[trigger] quiet_stmt(block.kind.stmts@[k], *expected_ret) {
                    assert(quiet_stmt(block.kind.stmts@[i as int], *expected_ret));
                    assert(forall|k: int| 0 <= k < i ==> #[trigger] quiet_stmt(block.kind.stmts@[k], *expected_ret));
                    assert(errs0 == old(self).errors@);
                }
            }
            i = i + 1;
        }
        match &block.kind.tail {
            Some(tail) => {
                proof {
                    if fuel > 3 && unmatched_tail(old(self).enums@, *block, old(locals)@) {
                        let t = **tail;
                        if let ExprKind::Match { scrutinee, arms } = t.kind {
                            if let ExprKind::Var(n) = scrutinee.kind {
                                lemma_lookup_same(block_locals@, old(locals)@, n@);
                                lemma_unmatched_same(old(self).enums@, table_lookup(block_locals@, n@)->0,
                                    table_lookup(old(locals)@, n@)->0, arms@);
                            }
                        }
                    }
                }
                let tail_ty = self.check_expr(tail, scope, &mut block_locals, expected_ret, fuel - 1);
                ExprTy { ty: tail_ty.ty, diverges: diverges || tail_ty.diverges }
            },
            None => ExprTy { ty: Node::new(block.span, TyKind::Unit), diverges },
        }
    }
}

/// A path type without arguments read as a constant expression naming a
/// constant.
fn ty_arg_as_const_expr(ty: &Ty) -> (r: Option<ConstExpr>)
    ensures
        r is Some <==> (ty.kind matches TyKind::Path { args, .. } && args@.len() == 0),
        r matches Some(e) ==> (e.span == ty.span && (e.kind matches ConstExprKind::Path(p)
            && (ty.kind matches TyKind::Path { path, .. } && p.kind.segments@ == path.kind.segments@))),
{
    match &ty.kind {
        TyKind::Path { path, args } => {
            if args.len() > 0 {
                None
            } else {
                Some(Node::new(ty.span, ConstExprKind::Path(crate::ast::clone_path(path))))
            }
        },
        _ => None,
    }
}

/// The value of an integer literal token (zero for any other token).
pub open spec fn int_token_value(t: crate::lexer::Token) -> int {
    match t.kind {
        crate::lexer::TokenKind::Int(v) => v@,
        _ => 0,
    }
}

/// A constant expression `x o y p z` read by the parser has the value its
/// grouping gives: `(x o y) p z` when `o` binds at least as tightly as `p`,
/// so operators of one binding strength apply left to right (`8 - 2 - 1`
/// is `5`), and `x o (y p z)` when `p` binds more tightly (`1 + 2 * 3` is
/// `7`).
pub proof fn law_const_expression_value_grouping(p: crate::parser::Parser, e: ConstExpr)
    requires
        crate::parser::const_triple_ahead(p, 0),
        crate::parser::const_triple_tree(p, e),
    ensures
        ({
            let x = int_token_value(p.ahead(0));
            let y = int_token_value(p.ahead(2));
            let z = int_token_value(p.ahead(4));
            let (o, q1) = crate::parser::const_binary_op_of(p.ahead(1).kind)->0;
            let (o2, q2) = crate::parser::const_binary_op_of(p.ahead(3).kind)->0;
            &&& q2 <= q1 ==> const_value(e) == (match const_binary_value(o, x, y) {
                Some(l) => const_binary_value(o2, l, z),
                None => None,
            })
            &&& q1 < q2 ==> const_value(e) == (match const_binary_value(o2, y, z) {
                Some(r) => const_binary_value(o, x, r),
                None => None,
            })
            &&& (o == ConstBinaryOp::Sub && o2 == ConstBinaryOp::Sub) ==> const_value(e) == Some(x - y - z)
            &&& (o == ConstBinaryOp::Add && o2 == ConstBinaryOp::Mul) ==> const_value(e) == Some(x + y * z)
        }),
{
    reveal_with_fuel(const_value, 3);
}

} // verus!
