//! The last step of compiling a module: its functions get their final hashes,
//! and its constants, native functions and migrations are folded in.
//!
//! What goes in is the module's symbolic form, in which its functions still
//! carry temporary hashes. A compilation and a later relink both end here, so
//! the same symbolic form always becomes the same module.

use vstd::prelude::*;

use crate::bytecode::{CompiledFunction, FunctionView};
use crate::compiler::context::lambda_views;
use crate::compiler::error::{CompileError, ErrorView, KindView};
use crate::compiler::hash::{
    finalizable, finalization_is_unique, finalize_fault, finalize_module_hashes, finalizes, module_nodes,
    NodeView,
};
use crate::compiler::module_output::{
    function_map, kept, migration_views, name_map, object_map, parent_map, CompiledModule,
    MigrationRecord, MigrationView,
};
use crate::digest::Digest;
use crate::object::{object_hash, ObjectView, StoredObject};
use crate::order::bytes_same;
use crate::ordmap::OrdMap;
use crate::text::{owned, push_text};
use crate::wire::contents;

verus! {

broadcast use {vstd::string::group_string_axioms, vstd::array::group_array_axioms};

/// What the check for ambiguous methods needs to know of one default
/// implementation of an ability's method.
#[derive(Debug, PartialEq, Eq)]
pub struct AbilityMethodCheck {
    /// The dispatch symbol of the method.
    pub symbol: String,
    /// The identity of the ability.
    pub uuid: [u8; 16],
    /// The hash of the method's signature, if it is known.
    pub signature: Option<[u8; 32]>,
    /// The name of the ability.
    pub ability_name: String,
    /// The name of the method.
    pub method_name: String,
    /// Where the method is declared.
    pub span: (u32, u32),
}

/// What an [`AbilityMethodCheck`] says.
pub struct CheckView {
    /// The dispatch symbol of the method.
    pub symbol: Seq<char>,
    /// The identity of the ability.
    pub uuid: Seq<u8>,
    /// The hash of the method's signature, if it is known.
    pub signature: Option<Seq<u8>>,
    /// The name of the ability.
    pub ability_name: Seq<char>,
    /// The name of the method.
    pub method_name: Seq<char>,
    /// Where the method is declared.
    pub span: (u32, u32),
}

/// The bytes of an optional signature hash.
pub open spec fn opt_signature(s: Option<[u8; 32]>) -> Option<Seq<u8>> {
    match s {
        Some(b) => Some(b@),
        None => None,
    }
}

impl View for AbilityMethodCheck {
    type V = CheckView;

    open spec fn view(&self) -> CheckView {
        CheckView {
            symbol: self.symbol@,
            uuid: self.uuid@,
            signature: opt_signature(self.signature),
            ability_name: self.ability_name@,
            method_name: self.method_name@,
            span: self.span,
        }
    }
}

/// What some checks say.
pub open spec fn check_views(s: Seq<AbilityMethodCheck>) -> Seq<CheckView> {
    Seq::new(s.len(), |i: int| s[i]@)
}

/// The symbolic form of a module: what it is assembled from.
pub struct AssembleInputs {
    /// The named functions, each with its name and whether it is the entry
    /// point. Their hashes are temporary.
    pub compiled_functions: Vec<(String, CompiledFunction, bool)>,
    /// The lambdas, each with its temporary hash and the name of the function it
    /// stands in.
    pub lambdas: Vec<(Digest, String, CompiledFunction)>,
    /// The names that order default implementations in a recursive group.
    pub ability_impl_group_names: OrdMap<String, String>,
    /// The objects of the constants.
    pub const_objects: Vec<StoredObject>,
    /// The names of the constants.
    pub const_names: Vec<(String, Digest)>,
    /// The objects of the native functions.
    pub native_objects: Vec<StoredObject>,
    /// The names of the native functions.
    pub native_names: Vec<(String, Digest)>,
    /// The state migrations.
    pub migrations: Vec<MigrationRecord>,
    /// The default implementations to check for ambiguity.
    pub ability_checks: Vec<AbilityMethodCheck>,
}

/// What [`AssembleInputs`] say.
pub struct FormView {
    /// The named functions, each with its name and whether it is the entry
    /// point.
    pub functions: Seq<(Seq<char>, FunctionView, bool)>,
    /// The lambdas, each with its temporary hash and the name of the function it
    /// stands in.
    pub lambdas: Seq<(Seq<u8>, Seq<char>, FunctionView)>,
    /// The names that order default implementations in a recursive group.
    pub group_names: Map<Seq<char>, Seq<char>>,
    /// The objects of the constants.
    pub const_objects: Set<ObjectView>,
    /// The names of the constants.
    pub const_names: Map<Seq<char>, Seq<u8>>,
    /// The objects of the native functions.
    pub native_objects: Set<ObjectView>,
    /// The names of the native functions.
    pub native_names: Map<Seq<char>, Seq<u8>>,
    /// The state migrations.
    pub migrations: Seq<MigrationView>,
    /// The default implementations to check for ambiguity.
    pub checks: Seq<CheckView>,
}

/// What named functions say.
pub open spec fn function_entries(s: Seq<(String, CompiledFunction, bool)>) -> Seq<
    (Seq<char>, FunctionView, bool),
> {
    Seq::new(s.len(), |i: int| (s[i].0@, s[i].1@, s[i].2))
}

/// The characters of the texts that names are bound to.
pub open spec fn text_map(m: Map<Seq<char>, String>) -> Map<Seq<char>, Seq<char>> {
    m.map_values(|s: String| s@)
}

impl View for AssembleInputs {
    type V = FormView;

    open spec fn view(&self) -> FormView {
        FormView {
            functions: function_entries(self.compiled_functions@),
            lambdas: lambda_views(self.lambdas@),
            group_names: text_map(self.ability_impl_group_names@),
            const_objects: contents(self.const_objects@).to_set(),
            const_names: bound(named(self.const_names@)),
            native_objects: contents(self.native_objects@).to_set(),
            native_names: bound(named(self.native_names@)),
            migrations: migration_views(self.migrations@),
            checks: check_views(self.ability_checks@),
        }
    }
}

/// The nodes that the functions of a symbolic form are finalized as.
pub open spec fn form_nodes(f: FormView) -> Seq<NodeView> {
    Seq::new(
        f.functions.len(),
        |i: int|
            NodeView {
                temp: f.functions[i].1.hash,
                name: Some(f.functions[i].0),
                group_name: Some(
                    if f.group_names.contains_key(f.functions[i].0) {
                        f.group_names[f.functions[i].0]
                    } else {
                        f.functions[i].0
                    },
                ),
                func: f.functions[i].1,
                is_main: f.functions[i].2,
                lambda_parent: None,
            },
    ) + Seq::new(
        f.lambdas.len(),
        |i: int|
            NodeView {
                temp: f.lambdas[i].0,
                name: None,
                group_name: None,
                func: f.lambdas[i].2,
                is_main: false,
                lambda_parent: Some(f.lambdas[i].1),
            },
    )
}

/// What functions are finalized as follows from what the symbolic form says.
pub proof fn nodes_of_form(inputs: AssembleInputs)
    ensures
        input_nodes(inputs) == form_nodes(inputs@),
{
    assert(input_nodes(inputs) =~= form_nodes(inputs@));
}

/// The nodes that the functions of a module are finalized as.
pub open spec fn input_nodes(inputs: AssembleInputs) -> Seq<NodeView> {
    module_nodes(inputs.compiled_functions@, inputs.lambdas@, inputs.ability_impl_group_names@)
}

/// Objects, each under its hash.
pub open spec fn hashed(objects: Seq<ObjectView>) -> Seq<(Seq<u8>, ObjectView)> {
    Seq::new(objects.len(), |i: int| (object_hash(objects[i]), objects[i]))
}

/// Names with the bytes of their hashes.
pub open spec fn named(names: Seq<(String, Digest)>) -> Seq<(Seq<char>, Seq<u8>)> {
    Seq::new(names.len(), |i: int| (names[i].0@, names[i].1@))
}

/// What names are bound to; of two entries with the same name the later counts.
pub open spec fn bound(names: Seq<(Seq<char>, Seq<u8>)>) -> Map<Seq<char>, Seq<u8>>
    decreases names.len(),
{
    if names.len() == 0 {
        Map::empty()
    } else {
        bound(names.drop_last()).insert(names.last().0, names.last().1)
    }
}

/// Whether entries with one name have one hash.
pub open spec fn one_hash_each(names: Seq<(Seq<char>, Seq<u8>)>) -> bool {
    forall|i: int|
        0 <= i < names.len() ==> bound(names).contains_key((#[trigger] names[i]).0) && bound(
            names,
        )[names[i].0] == names[i].1
}

/// Whether `m` is the finalized module `base` with the rest of the symbolic form
/// folded in: objects where their hash is free, names of native functions where
/// the name is free.
pub open spec fn assembled(inputs: AssembleInputs, base: CompiledModule, m: CompiledModule) -> bool {
    &&& function_map(m.functions@) == function_map(base.functions@)
    &&& parent_map(m.lambda_parents@) == parent_map(base.lambda_parents@)
    &&& m.entry_point == base.entry_point
    &&& object_map(m.objects@) == kept(
        kept(object_map(base.objects@), hashed(contents(inputs.const_objects@))),
        hashed(contents(inputs.native_objects@)),
    )
    &&& name_map(m.function_names@) == kept(
        name_map(base.function_names@),
        named(inputs.native_names@),
    )
    &&& name_map(m.const_names@) == bound(named(inputs.const_names@))
    &&& m.signatures@ == Map::<Seq<char>, String>::empty()
    &&& m.migrations == inputs.migrations
}

/// What identifies a default implementation at run time, if it is known.
pub open spec fn check_key(c: CheckView, names: Map<Seq<char>, Seq<u8>>) -> Option<
    (Seq<u8>, Seq<u8>, Seq<u8>),
> {
    match c.signature {
        Some(s) => if names.contains_key(c.symbol) {
            Some((c.uuid, s, names[c.symbol]))
        } else {
            None
        },
        None => None,
    }
}

/// Whether two methods would be one at run time.
pub open spec fn ambiguous(
    checks: Seq<CheckView>,
    names: Map<Seq<char>, Seq<u8>>,
    a: int,
    b: int,
) -> bool {
    &&& 0 <= a < b < checks.len()
    &&& check_key(checks[a], names) is Some
    &&& check_key(checks[a], names) == check_key(checks[b], names)
}

/// Whether `b` is the first method that would be one with a method before it,
/// which is `a`.
pub open spec fn first_ambiguous(
    checks: Seq<CheckView>,
    names: Map<Seq<char>, Seq<u8>>,
    a: int,
    b: int,
) -> bool {
    &&& ambiguous(checks, names, a, b)
    &&& forall|p: int, q: int| q < b ==> !#[trigger] ambiguous(checks, names, p, q)
}

/// Whether no two methods would be one at run time.
pub open spec fn unambiguous(checks: Seq<CheckView>, names: Map<Seq<char>, Seq<u8>>) -> bool {
    forall|p: int, q: int| !#[trigger] ambiguous(checks, names, p, q)
}

/// The error for two methods that would be one at run time.
pub open spec fn ambiguity_error(a: CheckView, b: CheckView) -> ErrorView {
    ErrorView {
        kind: KindView::Unsupported {
            feature: "ability `"@ + b.ability_name + "` methods `"@ + a.method_name + "` and `"@
                + b.method_name
                + "` share a signature and an identical default implementation, so they would be one method at runtime; make the implementations differ"@,
        },
        span: b.span,
    }
}

/// The names of a finalized module with those of native functions folded in.
pub open spec fn folded_names(inputs: AssembleInputs, base: CompiledModule) -> Map<
    Seq<char>,
    Seq<u8>,
> {
    kept(name_map(base.function_names@), named(inputs.native_names@))
}

/// Whether the first two of some methods that would be one give an error.
pub open spec fn ambiguity_fault(
    checks: Seq<CheckView>,
    names: Map<Seq<char>, Seq<u8>>,
    e: ErrorView,
) -> bool {
    exists|a: int, b: int| #[trigger]
        first_ambiguous(checks, names, a, b) && e == ambiguity_error(checks[a], checks[b])
}

/// What assembling failed with: the fault of finalization, else two methods that
/// would be one.
pub open spec fn assemble_fault(inputs: AssembleInputs, e: ErrorView) -> bool {
    if finalizable(input_nodes(inputs)) {
        exists|h: Seq<Seq<u8>>, base: CompiledModule| #[trigger]
            finalizes(input_nodes(inputs), h, base) && ambiguity_fault(
                check_views(inputs.ability_checks@),
                folded_names(inputs, base),
                e,
            )
    } else {
        finalize_fault(input_nodes(inputs), e)
    }
}

/// What assembling gives: a module where finalization gives one and no two
/// methods would be one, else an error.
pub open spec fn assembly(
    inputs: AssembleInputs,
    r: Result<CompiledModule, CompileError>,
) -> bool {
    match r {
        Ok(m) => finalizable(input_nodes(inputs)) && unambiguous(
            check_views(inputs.ability_checks@),
            name_map(m.function_names@),
        ) && exists|h: Seq<Seq<u8>>, base: CompiledModule|
            finalizes(input_nodes(inputs), h, base) && assembled(inputs, base, m),
        Err(e) => assemble_fault(inputs, e@),
    }
}

/// Where finalization succeeds, assembling fails exactly where two methods of an
/// ability would be one: both have a signature, they agree on it and on the
/// ability, and their implementations have one final hash. The error is that of
/// the first such pair, at the later of the two.
pub proof fn assembling_fails_only_on_ambiguity(
    inputs: AssembleInputs,
    r: Result<CompiledModule, CompileError>,
    h: Seq<Seq<u8>>,
    base: CompiledModule,
)
    requires
        assembly(inputs, r),
        input_nodes(inputs).len() <= usize::MAX,
        finalizable(input_nodes(inputs)),
        finalizes(input_nodes(inputs), h, base),
    ensures
        r is Ok <==> unambiguous(check_views(inputs.ability_checks@), folded_names(inputs, base)),
        r matches Ok(m) ==> name_map(m.function_names@) == folded_names(inputs, base),
        r matches Err(e) ==> ambiguity_fault(
            check_views(inputs.ability_checks@),
            folded_names(inputs, base),
            e@,
        ),
{
    let nodes = input_nodes(inputs);
    let checks = check_views(inputs.ability_checks@);
    match r {
        Ok(m) => {
            let (h2, b2) = choose|h2: Seq<Seq<u8>>, b2: CompiledModule|
                finalizes(nodes, h2, b2) && assembled(inputs, b2, m);
            finalization_is_unique(nodes, h, base, h2, b2);
        },
        Err(e) => {
            let (h2, b2) = choose|h2: Seq<Seq<u8>>, b2: CompiledModule| #[trigger]
                finalizes(nodes, h2, b2) && ambiguity_fault(
                    checks,
                    folded_names(inputs, b2),
                    e@,
                );
            finalization_is_unique(nodes, h, base, h2, b2);
            let (a, b) = choose|a: int, b: int| #[trigger]
                first_ambiguous(checks, folded_names(inputs, b2), a, b) && e@ == ambiguity_error(
                    checks[a],
                    checks[b],
                );
            assert(ambiguous(checks, folded_names(inputs, base), a, b));
        },
    }
}

/// Fold objects into others, each where its hash is free.
fn fold_objects(into: &mut OrdMap<Digest, StoredObject>, objects: &Vec<StoredObject>)
    ensures
        object_map(final(into)@) == kept(object_map(old(into)@), hashed(contents(objects@))),
{
    let ghost start = object_map(into@);
    let ghost es = hashed(contents(objects@));
    let mut i: usize = 0;
    assert(es.take(0) =~= seq![]);
    while i < objects.len()
        invariant
            i <= objects@.len(),
            es == hashed(contents(objects@)),
            object_map(into@) == kept(start, es.take(i as int)),
        decreases objects@.len() - i,
    {
        assert(es.take(i + 1).drop_last() =~= es.take(i as int));
        let hash = objects[i].hash();
        into.insert_if_absent(hash, objects[i].copy());
        i = i + 1;
        assert(object_map(into@) =~= kept(start, es.take(i as int)));
    }
    assert(es.take(objects@.len() as int) =~= es);
}

/// Whether two methods would be one at run time.
fn same_method(a: &AbilityMethodCheck, b: &AbilityMethodCheck, names: &OrdMap<String, Digest>) -> (r:
    bool)
    ensures
        r == (check_key(a@, name_map(names@)) is Some && check_key(a@, name_map(names@))
            == check_key(b@, name_map(names@))),
{
    let (sa, sb) = match (&a.signature, &b.signature) {
        (Some(x), Some(y)) => (x, y),
        _ => {
            return false;
        },
    };
    let (ha, hb) = match (names.get(&a.symbol), names.get(&b.symbol)) {
        (Some(x), Some(y)) => (x, y),
        _ => {
            return false;
        },
    };
    bytes_same(a.uuid.as_slice(), b.uuid.as_slice()) && bytes_same(sa.as_slice(), sb.as_slice())
        && ha.same(hb)
}

/// The first method that would be one with a method before it at run time, if
/// there is one: the two methods.
fn find_ambiguous(checks: &Vec<AbilityMethodCheck>, names: &OrdMap<String, Digest>) -> (r: Option<
    (usize, usize),
>)
    ensures
        match r {
            Some((a, b)) => first_ambiguous(
                check_views(checks@),
                name_map(names@),
                a as int,
                b as int,
            ),
            None => unambiguous(check_views(checks@), name_map(names@)),
        },
{
    let ghost cs = check_views(checks@);
    let ghost ns = name_map(names@);
    let mut b: usize = 0;
    while b < checks.len()
        invariant
            b <= checks@.len(),
            cs == check_views(checks@),
            ns == name_map(names@),
            forall|p: int, q: int| q < b ==> !#[trigger] ambiguous(cs, ns, p, q),
        decreases checks@.len() - b,
    {
        let mut a: usize = 0;
        while a < b
            invariant
                a <= b < checks@.len(),
                cs == check_views(checks@),
                ns == name_map(names@),
                forall|p: int, q: int| q < b ==> !#[trigger] ambiguous(cs, ns, p, q),
                forall|p: int| p < a ==> !#[trigger] ambiguous(cs, ns, p, b as int),
            decreases b - a,
        {
            if same_method(&checks[a], &checks[b], names) {
                assert(ambiguous(cs, ns, a as int, b as int));
                return Some((a, b));
            }
            a = a + 1;
        }
        b = b + 1;
    }
    None
}

/// Give the functions their final hashes, fold in the rest of the symbolic form,
/// and check that no two methods of an ability would be one at run time.
pub fn assemble_module(inputs: AssembleInputs) -> (r: Result<CompiledModule, CompileError>)
    ensures
        assembly(inputs, r),
        finalizable(input_nodes(inputs)) && inputs.ability_checks@.len() == 0 ==> r is Ok,
{
    let ghost original = inputs;
    let ghost nodes = input_nodes(inputs);
    let mut m = match finalize_module_hashes(
        &inputs.compiled_functions,
        &inputs.lambdas,
        &inputs.ability_impl_group_names,
    ) {
        Ok(m) => m,
        Err(e) => {
            return Err(e);
        },
    };
    let ghost base = m;
    let ghost h = choose|h: Seq<Seq<u8>>| finalizes(nodes, h, base);
    m.migrations = inputs.migrations;
    fold_objects(&mut m.objects, &inputs.const_objects);
    fold_objects(&mut m.objects, &inputs.native_objects);
    let ghost cn = named(inputs.const_names@);
    let mut i: usize = 0;
    assert(cn.take(0) =~= seq![]);
    assert(name_map(m.const_names@) =~= Map::empty());
    while i < inputs.const_names.len()
        invariant
            i <= inputs.const_names@.len(),
            cn == named(inputs.const_names@),
            name_map(m.const_names@) == bound(cn.take(i as int)),
            m.functions == base.functions,
            m.lambda_parents == base.lambda_parents,
            m.entry_point == base.entry_point,
            m.function_names == base.function_names,
            m.signatures == base.signatures,
            m.migrations == original.migrations,
            object_map(m.objects@) == kept(
                kept(object_map(base.objects@), hashed(contents(inputs.const_objects@))),
                hashed(contents(inputs.native_objects@)),
            ),
        decreases inputs.const_names@.len() - i,
    {
        let ghost was = name_map(m.const_names@);
        assert(cn.take(i + 1).drop_last() =~= cn.take(i as int));
        m.const_names.insert(owned(inputs.const_names[i].0.as_str()), inputs.const_names[i].1);
        i = i + 1;
        assert(name_map(m.const_names@) =~= bound(cn.take(i as int)));
    }
    assert(cn.take(inputs.const_names@.len() as int) =~= cn);
    let ghost nn = named(inputs.native_names@);
    let ghost start = name_map(base.function_names@);
    let mut k: usize = 0;
    assert(nn.take(0) =~= seq![]);
    while k < inputs.native_names.len()
        invariant
            k <= inputs.native_names@.len(),
            nn == named(inputs.native_names@),
            name_map(m.function_names@) == kept(start, nn.take(k as int)),
            name_map(m.const_names@) == bound(cn),
            m.functions == base.functions,
            m.lambda_parents == base.lambda_parents,
            m.entry_point == base.entry_point,
            m.signatures == base.signatures,
            m.migrations == original.migrations,
            object_map(m.objects@) == kept(
                kept(object_map(base.objects@), hashed(contents(inputs.const_objects@))),
                hashed(contents(inputs.native_objects@)),
            ),
        decreases inputs.native_names@.len() - k,
    {
        assert(nn.take(k + 1).drop_last() =~= nn.take(k as int));
        m.function_names.insert_if_absent(
            owned(inputs.native_names[k].0.as_str()),
            inputs.native_names[k].1,
        );
        k = k + 1;
        assert(name_map(m.function_names@) =~= kept(start, nn.take(k as int)));
    }
    assert(nn.take(inputs.native_names@.len() as int) =~= nn);
    assert(assembled(original, base, m));
    assert(finalizes(nodes, h, base));
    if let Some((a, b)) = find_ambiguous(&inputs.ability_checks, &m.function_names) {
        let check = &inputs.ability_checks[b];
        let mut feature = owned("ability `");
        push_text(&mut feature, check.ability_name.as_str());
        push_text(&mut feature, "` methods `");
        push_text(&mut feature, inputs.ability_checks[a].method_name.as_str());
        push_text(&mut feature, "` and `");
        push_text(&mut feature, check.method_name.as_str());
        push_text(
            &mut feature,
            "` share a signature and an identical default implementation, so they would be one method at runtime; make the implementations differ",
        );
        let e = CompileError::unsupported(feature, check.span);
        proof {
            let cs = check_views(original.ability_checks@);
            assert(e@ == ambiguity_error(cs[a as int], cs[b as int]));
            assert(ambiguous(cs, name_map(m.function_names@), a as int, b as int));
        }
        return Err(e);
    }
    Ok(m)
}

} // verus!
