//! The types of built-in functions and of literals.

use vstd::prelude::*;

use crate::bytecode::ConstantView;
use crate::compiler::intrinsics::{atom_type, form_type, Atom, Form};
use crate::const_eval::type_of_literal;
use crate::types::TypeView;

verus! {

proof fn lemma_names_differ()
    ensures
        "Number"@ != "String"@,
        "Number"@ != "Bool"@,
        "Number"@ != "Binary"@,
        "String"@ != "Bool"@,
        "String"@ != "Binary"@,
        "Bool"@ != "Binary"@,
        "List"@ != "Set"@,
        "List"@ != "Option"@,
        "List"@ != "Map"@,
        "Set"@ != "Option"@,
        "Set"@ != "Map"@,
        "Option"@ != "Map"@,
{
    reveal_strlit("Number");
    reveal_strlit("String");
    reveal_strlit("Bool");
    reveal_strlit("Binary");
    reveal_strlit("List");
    reveal_strlit("Set");
    reveal_strlit("Option");
    reveal_strlit("Map");
    assert("Number"@[0] != "String"@[0] && "Number"@[0] != "Bool"@[0]);
    assert("Number"@[0] != "Binary"@[0] && "String"@[0] != "Bool"@[0]);
    assert("String"@[0] != "Binary"@[0] && "Bool"@[1] != "Binary"@[1]);
    assert("List"@[0] != "Set"@[0] && "List"@[0] != "Option"@[0] && "List"@[0] != "Map"@[0]);
    assert("Set"@[0] != "Option"@[0] && "Set"@[0] != "Map"@[0] && "Option"@[0] != "Map"@[0]);
}

proof fn lemma_atoms_differ(a: Atom, b: Atom, base: u32)
    requires
        base < u32::MAX,
        atom_type(a, base) == atom_type(b, base),
    ensures
        a == b,
{
    lemma_names_differ();
}

/// Different forms are different types.
pub proof fn forms_have_types_of_their_own(f: Form, g: Form, base: u32)
    requires
        base < u32::MAX,
        form_type(f, base) == form_type(g, base),
    ensures
        f == g,
{
    lemma_names_differ();
    let x = form_type(f, base);
    let y = form_type(g, base);
    match (f, g) {
        (Form::Plain(a), Form::Plain(b)) => {
            lemma_atoms_differ(a, b, base);
        },
        (Form::MapOf(a, b), Form::MapOf(c, d)) => {
            assert(x->Named_1[0] == y->Named_1[0] && x->Named_1[1] == y->Named_1[1]);
            lemma_atoms_differ(a, c, base);
            lemma_atoms_differ(b, d, base);
        },
        (Form::ListOf(a), Form::ListOf(b)) => {
            assert(x->Named_1[0] == y->Named_1[0]);
            lemma_atoms_differ(a, b, base);
        },
        (Form::SetOf(a), Form::SetOf(b)) => {
            assert(x->Named_1[0] == y->Named_1[0]);
            lemma_atoms_differ(a, b, base);
        },
        (Form::OptionOf(a), Form::OptionOf(b)) => {
            assert(x->Named_1[0] == y->Named_1[0]);
            lemma_atoms_differ(a, b, base);
        },
        _ => {
            assert(x is Named ==> y is Named ==> x->Named_1.len() == y->Named_1.len());
        },
    }
}

/// A literal has the type that built-in functions take such values by.
pub proof fn literals_have_the_types_that_functions_take(c: ConstantView, base: u32)
    ensures
        c is Bool ==> type_of_literal(c) == form_type(Form::Plain(Atom::Bool), base),
        c is Number ==> type_of_literal(c) == form_type(Form::Plain(Atom::Number), base),
        c is String ==> type_of_literal(c) == form_type(Form::Plain(Atom::Text), base),
        c is Unit ==> type_of_literal(c) == TypeView::Unit,
{
}

} // verus!
