//! What a module's declarations make known to the code of its bodies.

use vstd::prelude::*;

use crate::ast::{
    AbilityMethod, ConstDef, EnumDef, Expr, ExternFnDef, FunctionDef, QualifiedName, StructDef,
};
use crate::compiler::codegen::{block_const_code, constant_of};
use crate::compiler::context::{TablesView, VariantView};
use crate::compiler::dicts::Gen;
use crate::compiler::execution::lemma_assoc;
use crate::compiler::hash::temporary_hash;
use crate::compiler::language::{value, Env};
use crate::compiler::machine::{constant_val, Host};
use crate::compiler::tables::{
    const_values, method_infos, native_object, own_key, with_functions, with_natives, with_symbols,
    with_unit_structs, with_variants,
};
use crate::const_eval::{literal, negated};
use crate::fqn::{KeyView, ModuleView};
use crate::module_env::BindingView;
use crate::object::{object_hash, stored_value, ObjectView};

verus! {

// ── enums and structs ───────────────────────────────────────────────────────

/// Whether the variants of an enum have different names.
pub open spec fn variants_differ(d: EnumDef) -> bool {
    forall|i: int, j: int|
        0 <= i < j < d.variants@.len() ==> (#[trigger] d.variants@[i]).name@ != (
        #[trigger] d.variants@[j]).name@
}

proof fn lemma_variant(m: Map<Seq<char>, VariantView>, d: EnumDef, k: nat, i: int)
    requires
        0 <= i < k <= d.variants@.len(),
        variants_differ(d),
    ensures
        with_variants(m, d, k).contains_key(d.variants@[i].name@),
        with_variants(m, d, k)[d.variants@[i].name@] == (VariantView {
            enum_name: d.name@,
            tag: i as u16,
            has_payload: d.variants@[i].payload is Some,
        }),
    decreases k,
{
    if i < k - 1 {
        lemma_variant(m, d, (k - 1) as nat, i);
        assert(d.variants@[i].name@ != d.variants@[k - 1].name@);
    }
}

/// The tag of a variant is its place in its enum, so that different variants of an
/// enum have different tags; it has a payload where it declares one.
pub proof fn variants_are_numbered_in_order(
    m: Map<Seq<char>, VariantView>,
    d: EnumDef,
    i: int,
    j: int,
)
    requires
        0 <= i < d.variants@.len(),
        0 <= j < d.variants@.len(),
        d.variants@.len() <= u16::MAX,
        variants_differ(d),
    ensures
        ({
            let all = with_variants(m, d, d.variants@.len());
            let v = all[d.variants@[i].name@];
            &&& all.contains_key(d.variants@[i].name@)
            &&& v.tag == i && v.enum_name == d.name@
            &&& v.has_payload <==> d.variants@[i].payload is Some
            &&& v.tag == all[d.variants@[j].name@].tag <==> i == j
        }),
{
    lemma_variant(m, d, d.variants@.len(), i);
    lemma_variant(m, d, d.variants@.len(), j);
}

/// The variants of an enum take the place of those of the same names and of no
/// others.
pub proof fn variants_leave_other_names(
    m: Map<Seq<char>, VariantView>,
    d: EnumDef,
    k: nat,
    n: Seq<char>,
)
    requires
        k <= d.variants@.len(),
        forall|i: int| 0 <= i < k ==> (#[trigger] d.variants@[i]).name@ != n,
    ensures
        with_variants(m, d, k).contains_key(n) == m.contains_key(n),
        m.contains_key(n) ==> with_variants(m, d, k)[n] == m[n],
    decreases k,
{
    if k > 0 {
        variants_leave_other_names(m, d, (k - 1) as nat, n);
        assert(d.variants@[k - 1].name@ != n);
    }
}

/// The structs that are values are those without fields.
pub proof fn structs_without_fields_are_values(
    s: Set<KeyView>,
    id: Option<ModuleView>,
    ds: Seq<StructDef>,
    key: KeyView,
)
    ensures
        with_unit_structs(s, id, ds).contains(key) <==> s.contains(key) || exists|i: int|
            0 <= i < ds.len() && (#[trigger] ds[i]).fields is None && key == own_key(
                id,
                ds[i].name@,
            ),
    decreases ds.len(),
{
    if ds.len() > 0 {
        let rest = ds.drop_last();
        let n = ds.len() - 1;
        structs_without_fields_are_values(s, id, rest, key);
        assert(ds[n] == ds.last());
        if exists|i: int|
            0 <= i < rest.len() && (#[trigger] rest[i]).fields is None && key == own_key(
                id,
                rest[i].name@,
            ) {
            let i = choose|i: int|
                0 <= i < rest.len() && (#[trigger] rest[i]).fields is None && key == own_key(
                    id,
                    rest[i].name@,
                );
            assert(ds[i] == rest[i]);
        }
        if exists|i: int|
            0 <= i < ds.len() && (#[trigger] ds[i]).fields is None && key == own_key(
                id,
                ds[i].name@,
            ) {
            let i = choose|i: int|
                0 <= i < ds.len() && (#[trigger] ds[i]).fields is None && key == own_key(
                    id,
                    ds[i].name@,
                );
            if i < n {
                assert(rest[i] == ds[i]);
            }
        }
    }
}

// ── functions ───────────────────────────────────────────────────────────────

/// The functions of a module are known under their own keys, each by the temporary
/// hash of its name.
pub proof fn functions_are_known_under_their_keys(
    m: Map<KeyView, Seq<u8>>,
    id: Option<ModuleView>,
    ds: Seq<FunctionDef>,
    i: int,
)
    requires
        0 <= i < ds.len(),
    ensures
        with_functions(m, id, ds).contains_key(own_key(id, ds[i].name@)),
        with_functions(m, id, ds)[own_key(id, ds[i].name@)] == temporary_hash(ds[i].name@),
    decreases ds.len(),
{
    let last = ds.last().name@;
    let a = own_key(id, ds[i].name@);
    let b = own_key(id, last);
    if a == b {
        if id is Some {
            assert(a->Item_0.ident[0] == b->Item_0.ident[0]);
        }
        assert(ds[i].name@ == last);
    } else {
        functions_are_known_under_their_keys(m, id, ds.drop_last(), i);
        assert(ds.drop_last()[i] == ds[i]);
    }
}

/// Functions take no other key.
pub proof fn functions_leave_other_keys(
    m: Map<KeyView, Seq<u8>>,
    id: Option<ModuleView>,
    ds: Seq<FunctionDef>,
    key: KeyView,
)
    requires
        forall|i: int| 0 <= i < ds.len() ==> own_key(id, (#[trigger] ds[i]).name@) != key,
    ensures
        with_functions(m, id, ds).contains_key(key) == m.contains_key(key),
        m.contains_key(key) ==> with_functions(m, id, ds)[key] == m[key],
    decreases ds.len(),
{
    if ds.len() > 0 {
        let rest = ds.drop_last();
        assert forall|i: int| 0 <= i < rest.len() implies own_key(id, (#[trigger] rest[i]).name@)
            != key by {
            assert(ds[i] == rest[i]);
        }
        functions_leave_other_keys(m, id, rest, key);
        assert(ds[ds.len() - 1] == ds.last());
    }
}

/// Dispatch symbols are known as they are written, each by its temporary hash.
pub proof fn symbols_are_known_as_they_are_written(
    m: Map<KeyView, Seq<u8>>,
    symbols: Seq<Seq<char>>,
    key: KeyView,
)
    ensures
        match key {
            KeyView::Bare(n) => if symbols.contains(n) {
                with_symbols(m, symbols).contains_key(key) && with_symbols(m, symbols)[key]
                    == temporary_hash(n)
            } else {
                with_symbols(m, symbols).contains_key(key) == m.contains_key(key) && (
                m.contains_key(key) ==> with_symbols(m, symbols)[key] == m[key])
            },
            _ => with_symbols(m, symbols).contains_key(key) == m.contains_key(key) && (
            m.contains_key(key) ==> with_symbols(m, symbols)[key] == m[key]),
        },
    decreases symbols.len(),
{
    if symbols.len() > 0 {
        let rest = symbols.drop_last();
        symbols_are_known_as_they_are_written(m, rest, key);
        assert(symbols =~= rest.push(symbols.last()));
        if let KeyView::Bare(n) = key {
            if symbols.contains(n) && n != symbols.last() {
                let i = choose|i: int| 0 <= i < symbols.len() && symbols[i] == n;
                assert(rest[i] == n);
            }
            if rest.contains(n) {
                let i = choose|i: int| 0 <= i < rest.len() && rest[i] == n;
                assert(symbols[i] == n);
            }
            if n == symbols.last() {
                assert(symbols[symbols.len() - 1] == n);
            }
        }
    }
}

// ── native functions ────────────────────────────────────────────────────────

/// Whether the host binds a native function as it is declared.
pub open spec fn bound_as_declared(natives: Map<Seq<char>, BindingView>, d: ExternFnDef) -> bool {
    natives.contains_key(d.name@) && natives[d.name@].arity == d.params@.len() as u8
}

/// A module is given its native functions just where the host binds every one of
/// them with the parameters that it declares. Each then stands for the function of
/// the host that is bound under its name.
pub proof fn natives_are_what_the_host_binds(
    m: Map<KeyView, Seq<u8>>,
    id: Option<ModuleView>,
    natives: Map<Seq<char>, BindingView>,
    ds: Seq<ExternFnDef>,
)
    ensures
        with_natives(m, id, natives, ds) is Ok <==> forall|i: int|
            0 <= i < ds.len() ==> bound_as_declared(natives, #[trigger] ds[i]),
        with_natives(m, id, natives, ds) matches Ok(n) ==> forall|i: int|
            0 <= i < ds.len() ==> {
                let d = #[trigger] ds[i];
                let o = native_object(natives[d.name@], d.params@.len() as u8);
                &&& n.objects.contains(o)
                &&& n.names.contains_key(d.name@)
                &&& n.hashes.contains_key(own_key(id, d.name@))
                &&& n.hashes[own_key(id, d.name@)] == n.names[d.name@]
            },
    decreases ds.len(),
{
    if ds.len() > 0 {
        let rest = ds.drop_last();
        let last = ds.last();
        natives_are_what_the_host_binds(m, id, natives, rest);
        assert(ds[ds.len() - 1] == last);
        assert(forall|i: int| 0 <= i < rest.len() ==> #[trigger] rest[i] == ds[i]);
        if with_natives(m, id, natives, ds) is Ok {
            assert(with_natives(m, id, natives, rest) is Ok);
            let n = with_natives(m, id, natives, ds)->Ok_0;
            assert forall|i: int| 0 <= i < ds.len() implies {
                let d = #[trigger] ds[i];
                let o = native_object(natives[d.name@], d.params@.len() as u8);
                &&& bound_as_declared(natives, d)
                &&& n.objects.contains(o)
                &&& n.names.contains_key(d.name@)
                &&& n.hashes.contains_key(own_key(id, d.name@))
                &&& n.hashes[own_key(id, d.name@)] == n.names[d.name@]
            } by {
                let a = own_key(id, ds[i].name@);
                let b = own_key(id, last.name@);
                if a == b && id is Some {
                    assert(a->Item_0.ident[0] == b->Item_0.ident[0]);
                }
                if i < rest.len() {
                    assert(rest[i] == ds[i]);
                }
            }
        }
        if forall|i: int| 0 <= i < ds.len() ==> bound_as_declared(natives, #[trigger] ds[i]) {
            assert forall|i: int| 0 <= i < rest.len() implies bound_as_declared(
                natives,
                #[trigger] rest[i],
            ) by {
                assert(rest[i] == ds[i]);
            }
        }
    }
}

/// The hash under which a native function is known is that of the function of the
/// host, where a name is declared once.
pub proof fn natives_are_known_by_their_objects(
    m: Map<KeyView, Seq<u8>>,
    id: Option<ModuleView>,
    natives: Map<Seq<char>, BindingView>,
    ds: Seq<ExternFnDef>,
    i: int,
)
    requires
        with_natives(m, id, natives, ds) is Ok,
        0 <= i < ds.len(),
        forall|j: int, k: int|
            0 <= j < k < ds.len() ==> (#[trigger] ds[j]).name@ != (#[trigger] ds[k]).name@,
    ensures
        with_natives(m, id, natives, ds)->Ok_0.names[ds[i].name@] == object_hash(
            native_object(natives[ds[i].name@], ds[i].params@.len() as u8),
        ),
    decreases ds.len(),
{
    let rest = ds.drop_last();
    if i < rest.len() {
        assert forall|j: int, k: int| 0 <= j < k < rest.len() implies (#[trigger] rest[j]).name@
            != (#[trigger] rest[k]).name@ by {
            assert(ds[j].name@ != ds[k].name@);
        }
        assert(with_natives(m, id, natives, rest) is Ok);
        natives_are_known_by_their_objects(m, id, natives, rest, i);
        assert(rest[i] == ds[i]);
        assert(ds[i].name@ != ds[ds.len() - 1].name@);
    }
}

// ── abilities and constants ─────────────────────────────────────────────────

/// The methods of an ability come in the order of its declaration, each under its
/// name and with its signature. One with a body can be called without a handler.
pub proof fn methods_come_as_they_are_declared(ms: Seq<AbilityMethod>, i: int)
    requires
        method_infos(ms) is Ok,
        0 <= i < ms.len(),
    ensures
        ({
            let r = method_infos(ms)->Ok_0;
            &&& r.len() == ms.len()
            &&& r[i].name == ms[i].name@ && ms[i].resolved_signature is Some
            &&& r[i].signature == ms[i].resolved_signature->0@
            &&& r[i].has_impl <==> ms[i].body is Some
            &&& r[i].never == ms[i].never
        }),
    decreases ms.len(),
{
    let rest = ms.drop_last();
    assert(method_infos(rest) is Ok);
    if rest.len() > 0 {
        methods_come_as_they_are_declared(
            rest,
            if i < rest.len() {
                i
            } else {
                0
            },
        );
        assert(i < rest.len() ==> rest[i] == ms[i]);
    } else {
        assert(method_infos(rest)->Ok_0.len() == 0);
    }
}

/// A constant whose initializer is a literal has the value of the initializer, in
/// every host that negates a number by its sign.
pub proof fn constants_have_the_value_of_their_initializer(
    m: Host,
    t: TablesView,
    e: Expr,
    env: Env,
)
    requires
        literal(e) is Some,
        forall|n: u64| #[trigger] (m.numbers.negated)(n) == negated(n),
    ensures
        constant_val(literal(e)->0) is Some,
        constant_val(literal(e)->0) == value(m, t, e, env),
{
    reveal_with_fuel(value, 2);
}

/// Every constant whose initializer is a literal is among the values of a module's
/// constants, under its own key.
pub proof fn literal_constants_have_values(id: Option<ModuleView>, ds: Seq<ConstDef>, i: int)
    requires
        0 <= i < ds.len(),
        literal(ds[i].value) is Some,
    ensures
        const_values(id, ds).contains((own_key(id, ds[i].name@), literal(ds[i].value)->0)),
    decreases ds.len(),
{
    let rest = ds.drop_last();
    let x = (own_key(id, ds[i].name@), literal(ds[i].value)->0);
    let all = const_values(id, ds);
    if i < rest.len() {
        literal_constants_have_values(id, rest, i);
        let was = const_values(id, rest);
        assert(rest[i] == ds[i]);
        let k = choose|k: int| 0 <= k < was.len() && was[k] == x;
        assert(all[k] == x);
    } else {
        assert(all.last() == x);
        assert(all[all.len() - 1] == x);
    }
}

/// A constant of a block whose initializer is a literal has no code: its name means,
/// in what follows, an object that holds its value. Other names mean what they meant.
pub proof fn block_constants_mean_their_value(
    t: TablesView,
    c: ConstDef,
    g: Gen,
    n: QualifiedName,
)
    requires
        block_const_code(c, g) is Ok,
        literal(c.value) is Some,
    ensures
        ({
            let (code, h) = block_const_code(c, g)->Ok_0;
            let o = ObjectView::Value(stored_value(literal(c.value)->0)->0);
            &&& code.len() == 0
            &&& stored_value(literal(c.value)->0) is Some
            &&& if n.bare() && n.name@ == c.name@ {
                constant_of(t, h.scope, n) == Some(object_hash(o))
            } else {
                constant_of(t, h.scope, n) == constant_of(t, g.scope, n)
            }
            &&& h.out.const_objects.contains_key(object_hash(o)) && h.out.const_objects[object_hash(
                o,
            )] == o
            &&& h.scope.locals == g.scope.locals && h.scope.next_local == g.scope.next_local
        }),
{
    let h = block_const_code(c, g)->Ok_0.1;
    let o = ObjectView::Value(stored_value(literal(c.value)->0)->0);
    lemma_assoc(g.scope.block_consts, c.name@, object_hash(o), n.name@);
}

} // verus!
