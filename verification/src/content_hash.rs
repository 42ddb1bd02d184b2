//! Content hashes of syntax.

use vstd::bytes::{lemma_auto_spec_u16_to_from_le_bytes, lemma_auto_spec_u32_to_from_le_bytes};
use vstd::prelude::*;

use crate::digest::{blake3_hash, Digest};
use crate::syntax::{Literal, Statement};
use crate::wire::{put_raw, Wire};

verus! {

/// What can be addressed by the hash of its content.
pub trait ContentHash {
    /// The content, with that of everything below it.
    spec fn content(&self) -> Seq<u8>;

    /// Add the content to what is hashed.
    fn update(&self, input: &mut Vec<u8>)
        ensures
            final(input)@ == old(input)@ + self.content(),
    ;

    /// The hash of the content.
    fn hash(&self) -> (r: Digest)
        ensures
            r@ == blake3_hash(self.content()),
    {
        let mut input: Vec<u8> = Vec::new();
        self.update(&mut input);
        assert(input@ =~= self.content());
        Digest::of(input.as_slice())
    }
}

/// What tells apart values of different sorts that happen to have the same
/// bytes. The numbers never change.
#[derive(Debug, Clone, Copy, PartialEq, Eq, Structural)]
pub enum SyntaxType {
    /// An integer literal.
    LiteralInt32,
    /// A boolean literal.
    LiteralBoolean,
    /// A hash literal.
    LiteralHash,
    /// A constant.
    StatementConst,
}

/// The number of a sort.
pub open spec fn syntax_tag(t: SyntaxType) -> u16 {
    match t {
        SyntaxType::LiteralInt32 => 0,
        SyntaxType::LiteralBoolean => 1,
        SyntaxType::LiteralHash => 2,
        SyntaxType::StatementConst => 100,
    }
}

impl ContentHash for SyntaxType {
    open spec fn content(&self) -> Seq<u8> {
        <u16 as Wire>::bytes(syntax_tag(*self))
    }

    fn update(&self, input: &mut Vec<u8>) {
        let tag: u16 = match self {
            SyntaxType::LiteralInt32 => 0,
            SyntaxType::LiteralBoolean => 1,
            SyntaxType::LiteralHash => 2,
            SyntaxType::StatementConst => 100,
        };
        tag.put(input);
    }
}

impl ContentHash for Literal {
    open spec fn content(&self) -> Seq<u8> {
        match *self {
            Literal::Int32(value) => SyntaxType::LiteralInt32.content() + <u32 as Wire>::bytes(
                value as u32,
            ),
            Literal::Boolean(value) => SyntaxType::LiteralBoolean.content() + seq![
                if value {
                    1u8
                } else {
                    0u8
                },
            ],
            Literal::Hash(value) => SyntaxType::LiteralHash.content() + value@,
        }
    }

    fn update(&self, input: &mut Vec<u8>) {
        let ghost before = input@;
        match self {
            Literal::Int32(value) => {
                SyntaxType::LiteralInt32.update(input);
                let bits: u32 = *value as u32;
                bits.put(input);
            },
            Literal::Boolean(value) => {
                SyntaxType::LiteralBoolean.update(input);
                if *value {
                    input.push(1);
                } else {
                    input.push(0);
                }
            },
            Literal::Hash(value) => {
                SyntaxType::LiteralHash.update(input);
                put_raw(value.as_bytes(), input);
            },
        }
        assert(input@ =~= before + self.content());
    }
}

impl ContentHash for Statement {
    open spec fn content(&self) -> Seq<u8> {
        match *self {
            Statement::Const(value) => SyntaxType::StatementConst.content() + value.content(),
        }
    }

    fn update(&self, input: &mut Vec<u8>) {
        let ghost before = input@;
        match self {
            Statement::Const(value) => {
                SyntaxType::StatementConst.update(input);
                value.update(input);
            },
        }
        assert(input@ =~= before + self.content());
    }
}

// ── laws ────────────────────────────────────────────────────────────────────

/// Sorts with the same content are the same.
proof fn lemma_sorts_differ(a: SyntaxType, b: SyntaxType)
    ensures
        a.content().len() == 2,
        a.content() == b.content() ==> a == b,
{
    lemma_auto_spec_u16_to_from_le_bytes();
}

/// The sort that the content of a literal begins with.
pub open spec fn literal_sort(l: Literal) -> SyntaxType {
    match l {
        Literal::Int32(_) => SyntaxType::LiteralInt32,
        Literal::Boolean(_) => SyntaxType::LiteralBoolean,
        Literal::Hash(_) => SyntaxType::LiteralHash,
    }
}

/// The sort of a literal can be read off its content.
proof fn lemma_begins_with_sort(l: Literal)
    ensures
        l.content().len() >= 2,
        l.content().take(2) == literal_sort(l).content(),
{
    lemma_sorts_differ(literal_sort(l), literal_sort(l));
    assert(l.content().take(2) =~= literal_sort(l).content());
}

/// Whether two literals say the same.
pub open spec fn same_literal(a: Literal, b: Literal) -> bool {
    match (a, b) {
        (Literal::Int32(x), Literal::Int32(y)) => x == y,
        (Literal::Boolean(x), Literal::Boolean(y)) => x == y,
        (Literal::Hash(x), Literal::Hash(y)) => x@ == y@,
        _ => false,
    }
}

/// Different literals have different contents.
pub proof fn literal_content_is_unique(a: Literal, b: Literal)
    ensures
        a.content() == b.content() <==> same_literal(a, b),
{
    lemma_begins_with_sort(a);
    lemma_begins_with_sort(b);
    lemma_sorts_differ(literal_sort(a), literal_sort(b));
    if a.content() == b.content() {
        assert(literal_sort(a) == literal_sort(b));
        let x = a.content().skip(2);
        let y = b.content().skip(2);
        match (a, b) {
            (Literal::Int32(m), Literal::Int32(n)) => {
                lemma_auto_spec_u32_to_from_le_bytes();
                assert(x =~= <u32 as Wire>::bytes(m as u32));
                assert(y =~= <u32 as Wire>::bytes(n as u32));
                assert(m as u32 == n as u32);
                assert(m as u32 == n as u32 ==> m == n) by (bit_vector);
            },
            (Literal::Boolean(m), Literal::Boolean(n)) => {
                assert(x[0] == if m { 1u8 } else { 0u8 });
                assert(y[0] == if n { 1u8 } else { 0u8 });
            },
            (Literal::Hash(m), Literal::Hash(n)) => {
                assert(x =~= m@);
                assert(y =~= n@);
            },
            _ => {},
        }
    }
}

/// Different constants have different contents, and none has that of a literal.
pub proof fn constant_content_is_unique(a: Literal, b: Literal)
    ensures
        Statement::Const(a).content() == Statement::Const(b).content() <==> same_literal(a, b),
        Statement::Const(a).content() != b.content(),
{
    lemma_begins_with_sort(b);
    lemma_sorts_differ(SyntaxType::StatementConst, literal_sort(b));
    let s = Statement::Const(a).content();
    let t = Statement::Const(b).content();
    assert(s.take(2) =~= SyntaxType::StatementConst.content());
    assert(s.skip(2) =~= a.content());
    assert(t.skip(2) =~= b.content());
    literal_content_is_unique(a, b);
}

} // verus!
