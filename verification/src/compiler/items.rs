//! The items of a module by their kind, in the order in which they are declared.

use vstd::prelude::*;

use crate::ast::{
    AbilityDef, AbilityMethod, ConstDef, EnumDef, ExternFnDef, FunctionDef, ImplDef, ImplMethod,
    Item, ItemKind, StructDef,
};

verus! {

/// What references point to.
pub open spec fn referents<T>(s: Seq<&T>) -> Seq<T> {
    Seq::new(s.len(), |i: int| *s[i])
}

/// What pairs of references point to.
pub open spec fn referent_pairs<A, B>(s: Seq<(&A, &B)>) -> Seq<(A, B)> {
    Seq::new(s.len(), |i: int| (*s[i].0, *s[i].1))
}

/// The functions.
pub open spec fn all_functions(items: Seq<Item>) -> Seq<FunctionDef>
    decreases items.len(),
{
    if items.len() == 0 {
        seq![]
    } else {
        let before = all_functions(items.drop_last());
        match items.last().kind {
            ItemKind::Function(d) => before.push(d),
            _ => before,
        }
    }
}

/// The native functions.
pub open spec fn all_externs(items: Seq<Item>) -> Seq<ExternFnDef>
    decreases items.len(),
{
    if items.len() == 0 {
        seq![]
    } else {
        let before = all_externs(items.drop_last());
        match items.last().kind {
            ItemKind::ExternFn(d) => before.push(d),
            _ => before,
        }
    }
}

/// The constants.
pub open spec fn all_consts(items: Seq<Item>) -> Seq<ConstDef>
    decreases items.len(),
{
    if items.len() == 0 {
        seq![]
    } else {
        let before = all_consts(items.drop_last());
        match items.last().kind {
            ItemKind::Const(d) => before.push(d),
            _ => before,
        }
    }
}

/// The enums.
pub open spec fn all_enums(items: Seq<Item>) -> Seq<EnumDef>
    decreases items.len(),
{
    if items.len() == 0 {
        seq![]
    } else {
        let before = all_enums(items.drop_last());
        match items.last().kind {
            ItemKind::Enum(d) => before.push(d),
            _ => before,
        }
    }
}

/// The structs.
pub open spec fn all_structs(items: Seq<Item>) -> Seq<StructDef>
    decreases items.len(),
{
    if items.len() == 0 {
        seq![]
    } else {
        let before = all_structs(items.drop_last());
        match items.last().kind {
            ItemKind::Struct(d) => before.push(d),
            _ => before,
        }
    }
}

/// The abilities.
pub open spec fn all_abilities(items: Seq<Item>) -> Seq<AbilityDef>
    decreases items.len(),
{
    if items.len() == 0 {
        seq![]
    } else {
        let before = all_abilities(items.drop_last());
        match items.last().kind {
            ItemKind::Ability(d) => before.push(d),
            _ => before,
        }
    }
}

/// The impls.
pub open spec fn all_impls(items: Seq<Item>) -> Seq<ImplDef>
    decreases items.len(),
{
    if items.len() == 0 {
        seq![]
    } else {
        let before = all_impls(items.drop_last());
        match items.last().kind {
            ItemKind::Impl(d) => before.push(d),
            _ => before,
        }
    }
}

/// The methods of impls, each with its impl.
pub open spec fn impl_methods(impls: Seq<ImplDef>) -> Seq<(ImplDef, ImplMethod)>
    decreases impls.len(),
{
    if impls.len() == 0 {
        seq![]
    } else {
        let d = impls.last();
        impl_methods(impls.drop_last()) + Seq::new(
            d.methods@.len(),
            |i: int| (d, d.methods@[i]),
        )
    }
}

/// Those of some methods of an ability that have a default implementation, each
/// with the ability.
pub open spec fn implemented(d: AbilityDef, ms: Seq<AbilityMethod>) -> Seq<
    (AbilityDef, AbilityMethod),
>
    decreases ms.len(),
{
    if ms.len() == 0 {
        seq![]
    } else if ms.last().body is Some {
        implemented(d, ms.drop_last()).push((d, ms.last()))
    } else {
        implemented(d, ms.drop_last())
    }
}

/// The methods of abilities that have a default implementation, each with its
/// ability.
pub open spec fn ability_methods(abilities: Seq<AbilityDef>) -> Seq<(AbilityDef, AbilityMethod)>
    decreases abilities.len(),
{
    if abilities.len() == 0 {
        seq![]
    } else {
        ability_methods(abilities.drop_last()) + implemented(
            abilities.last(),
            abilities.last().methods@,
        )
    }
}

/// The functions.
pub fn functions_of<'a>(items: &'a Vec<Item>) -> (r: Vec<&'a FunctionDef>)
    ensures
        referents(r@) == all_functions(items@),
{
    let mut r: Vec<&FunctionDef> = Vec::new();
    let mut i: usize = 0;
    assert(items@.take(0) =~= seq![]);
    assert(referents(r@) =~= seq![]);
    while i < items.len()
        invariant
            i <= items@.len(),
            referents(r@) == all_functions(items@.take(i as int)),
        decreases items@.len() - i,
    {
        assert(items@.take(i + 1).drop_last() =~= items@.take(i as int));
        let ghost was = referents(r@);
        if let ItemKind::Function(d) = &items[i].kind {
            r.push(d);
            assert(referents(r@) =~= was.push(*d));
        }
        i = i + 1;
    }
    assert(items@.take(items@.len() as int) =~= items@);
    r
}

/// The native functions.
pub fn externs_of<'a>(items: &'a Vec<Item>) -> (r: Vec<&'a ExternFnDef>)
    ensures
        referents(r@) == all_externs(items@),
{
    let mut r: Vec<&ExternFnDef> = Vec::new();
    let mut i: usize = 0;
    assert(items@.take(0) =~= seq![]);
    assert(referents(r@) =~= seq![]);
    while i < items.len()
        invariant
            i <= items@.len(),
            referents(r@) == all_externs(items@.take(i as int)),
        decreases items@.len() - i,
    {
        assert(items@.take(i + 1).drop_last() =~= items@.take(i as int));
        let ghost was = referents(r@);
        if let ItemKind::ExternFn(d) = &items[i].kind {
            r.push(d);
            assert(referents(r@) =~= was.push(*d));
        }
        i = i + 1;
    }
    assert(items@.take(items@.len() as int) =~= items@);
    r
}

/// The constants.
pub fn consts_of<'a>(items: &'a Vec<Item>) -> (r: Vec<&'a ConstDef>)
    ensures
        referents(r@) == all_consts(items@),
{
    let mut r: Vec<&ConstDef> = Vec::new();
    let mut i: usize = 0;
    assert(items@.take(0) =~= seq![]);
    assert(referents(r@) =~= seq![]);
    while i < items.len()
        invariant
            i <= items@.len(),
            referents(r@) == all_consts(items@.take(i as int)),
        decreases items@.len() - i,
    {
        assert(items@.take(i + 1).drop_last() =~= items@.take(i as int));
        let ghost was = referents(r@);
        if let ItemKind::Const(d) = &items[i].kind {
            r.push(d);
            assert(referents(r@) =~= was.push(*d));
        }
        i = i + 1;
    }
    assert(items@.take(items@.len() as int) =~= items@);
    r
}

/// The enums.
pub fn enums_of<'a>(items: &'a Vec<Item>) -> (r: Vec<&'a EnumDef>)
    ensures
        referents(r@) == all_enums(items@),
{
    let mut r: Vec<&EnumDef> = Vec::new();
    let mut i: usize = 0;
    assert(items@.take(0) =~= seq![]);
    assert(referents(r@) =~= seq![]);
    while i < items.len()
        invariant
            i <= items@.len(),
            referents(r@) == all_enums(items@.take(i as int)),
        decreases items@.len() - i,
    {
        assert(items@.take(i + 1).drop_last() =~= items@.take(i as int));
        let ghost was = referents(r@);
        if let ItemKind::Enum(d) = &items[i].kind {
            r.push(d);
            assert(referents(r@) =~= was.push(*d));
        }
        i = i + 1;
    }
    assert(items@.take(items@.len() as int) =~= items@);
    r
}

/// The structs.
pub fn structs_of<'a>(items: &'a Vec<Item>) -> (r: Vec<&'a StructDef>)
    ensures
        referents(r@) == all_structs(items@),
{
    let mut r: Vec<&StructDef> = Vec::new();
    let mut i: usize = 0;
    assert(items@.take(0) =~= seq![]);
    assert(referents(r@) =~= seq![]);
    while i < items.len()
        invariant
            i <= items@.len(),
            referents(r@) == all_structs(items@.take(i as int)),
        decreases items@.len() - i,
    {
        assert(items@.take(i + 1).drop_last() =~= items@.take(i as int));
        let ghost was = referents(r@);
        if let ItemKind::Struct(d) = &items[i].kind {
            r.push(d);
            assert(referents(r@) =~= was.push(*d));
        }
        i = i + 1;
    }
    assert(items@.take(items@.len() as int) =~= items@);
    r
}

/// The abilities.
pub fn abilities_of<'a>(items: &'a Vec<Item>) -> (r: Vec<&'a AbilityDef>)
    ensures
        referents(r@) == all_abilities(items@),
{
    let mut r: Vec<&AbilityDef> = Vec::new();
    let mut i: usize = 0;
    assert(items@.take(0) =~= seq![]);
    assert(referents(r@) =~= seq![]);
    while i < items.len()
        invariant
            i <= items@.len(),
            referents(r@) == all_abilities(items@.take(i as int)),
        decreases items@.len() - i,
    {
        assert(items@.take(i + 1).drop_last() =~= items@.take(i as int));
        let ghost was = referents(r@);
        if let ItemKind::Ability(d) = &items[i].kind {
            r.push(d);
            assert(referents(r@) =~= was.push(*d));
        }
        i = i + 1;
    }
    assert(items@.take(items@.len() as int) =~= items@);
    r
}

/// The impls.
pub fn impls_of<'a>(items: &'a Vec<Item>) -> (r: Vec<&'a ImplDef>)
    ensures
        referents(r@) == all_impls(items@),
{
    let mut r: Vec<&ImplDef> = Vec::new();
    let mut i: usize = 0;
    assert(items@.take(0) =~= seq![]);
    assert(referents(r@) =~= seq![]);
    while i < items.len()
        invariant
            i <= items@.len(),
            referents(r@) == all_impls(items@.take(i as int)),
        decreases items@.len() - i,
    {
        assert(items@.take(i + 1).drop_last() =~= items@.take(i as int));
        let ghost was = referents(r@);
        if let ItemKind::Impl(d) = &items[i].kind {
            r.push(d);
            assert(referents(r@) =~= was.push(*d));
        }
        i = i + 1;
    }
    assert(items@.take(items@.len() as int) =~= items@);
    r
}

/// The methods of impls, each with its impl.
pub fn impl_methods_of<'a>(impls: &Vec<&'a ImplDef>) -> (r: Vec<(&'a ImplDef, &'a ImplMethod)>)
    ensures
        referent_pairs(r@) == impl_methods(referents(impls@)),
{
    let ghost all = referents(impls@);
    let mut r: Vec<(&ImplDef, &ImplMethod)> = Vec::new();
    let mut i: usize = 0;
    assert(all.take(0) =~= seq![]);
    assert(referent_pairs(r@) =~= seq![]);
    while i < impls.len()
        invariant
            i <= impls@.len(),
            all == referents(impls@),
            referent_pairs(r@) == impl_methods(all.take(i as int)),
        decreases impls@.len() - i,
    {
        assert(all.take(i + 1).drop_last() =~= all.take(i as int));
        let ghost was = referent_pairs(r@);
        let d: &ImplDef = impls[i];
        let mut k: usize = 0;
        assert(referent_pairs(r@) =~= was + Seq::new(0, |j: int| (*d, d.methods@[j])));
        while k < d.methods.len()
            invariant
                k <= d.methods@.len(),
                referent_pairs(r@) == was + Seq::new(k as nat, |j: int| (*d, d.methods@[j])),
            decreases d.methods@.len() - k,
        {
            let ghost now = referent_pairs(r@);
            r.push((d, &d.methods[k]));
            assert(referent_pairs(r@) =~= now.push((*d, d.methods@[k as int])));
            k = k + 1;
            assert(referent_pairs(r@) =~= was + Seq::new(k as nat, |j: int| (*d, d.methods@[j])));
        }
        assert(all.take(i + 1).last() == *d);
        i = i + 1;
    }
    assert(all.take(all.len() as int) =~= all);
    r
}

/// The methods of abilities that have a default implementation, each with its
/// ability.
pub fn ability_methods_of<'a>(abilities: &Vec<&'a AbilityDef>) -> (r: Vec<
    (&'a AbilityDef, &'a AbilityMethod),
>)
    ensures
        referent_pairs(r@) == ability_methods(referents(abilities@)),
{
    let ghost all = referents(abilities@);
    let mut r: Vec<(&AbilityDef, &AbilityMethod)> = Vec::new();
    let mut i: usize = 0;
    assert(all.take(0) =~= seq![]);
    assert(referent_pairs(r@) =~= seq![]);
    while i < abilities.len()
        invariant
            i <= abilities@.len(),
            all == referents(abilities@),
            referent_pairs(r@) == ability_methods(all.take(i as int)),
        decreases abilities@.len() - i,
    {
        assert(all.take(i + 1).drop_last() =~= all.take(i as int));
        let ghost was = referent_pairs(r@);
        let d: &AbilityDef = abilities[i];
        let ghost ms = d.methods@;
        let mut k: usize = 0;
        assert(ms.take(0) =~= seq![]);
        assert(referent_pairs(r@) =~= was + seq![]);
        while k < d.methods.len()
            invariant
                k <= d.methods@.len(),
                ms == d.methods@,
                referent_pairs(r@) == was + implemented(*d, ms.take(k as int)),
            decreases d.methods@.len() - k,
        {
            assert(ms.take(k + 1).drop_last() =~= ms.take(k as int));
            let ghost now = referent_pairs(r@);
            if d.methods[k].body.is_some() {
                r.push((d, &d.methods[k]));
                assert(referent_pairs(r@) =~= now.push((*d, ms[k as int])));
                assert(referent_pairs(r@) =~= was + implemented(*d, ms.take(k as int)).push(
                    (*d, ms[k as int]),
                ));
            }
            k = k + 1;
        }
        assert(ms.take(ms.len() as int) =~= ms);
        assert(all.take(i + 1).last() == *d);
        i = i + 1;
    }
    assert(all.take(all.len() as int) =~= all);
    r
}

} // verus!
