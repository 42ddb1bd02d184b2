//! The summary of a module that its dependents and the build cache see.

use vstd::prelude::*;

use crate::digest::Digest;
use crate::wire::{Reader, Wire, WireError};

verus! {

/// The precise sort of a top-level item.
#[derive(Debug, Clone, Copy, PartialEq, Eq, Structural)]
pub enum ItemKindTag {
    /// A function.
    Function,
    /// A constant.
    Const,
    /// A struct.
    Struct,
    /// An enum.
    Enum,
    /// A type alias.
    TypeAlias,
    /// A trait.
    Trait,
    /// An ability.
    Ability,
}

impl ItemKindTag {
    /// The tag byte.
    pub open spec fn tag(self) -> u8 {
        match self {
            ItemKindTag::Function => 0,
            ItemKindTag::Const => 1,
            ItemKindTag::Struct => 2,
            ItemKindTag::Enum => 3,
            ItemKindTag::TypeAlias => 4,
            ItemKindTag::Trait => 5,
            ItemKindTag::Ability => 6,
        }
    }

    /// The sort with a given tag byte.
    pub open spec fn from_tag(b: u8) -> Option<ItemKindTag> {
        if b == 0 {
            Some(ItemKindTag::Function)
        } else if b == 1 {
            Some(ItemKindTag::Const)
        } else if b == 2 {
            Some(ItemKindTag::Struct)
        } else if b == 3 {
            Some(ItemKindTag::Enum)
        } else if b == 4 {
            Some(ItemKindTag::TypeAlias)
        } else if b == 5 {
            Some(ItemKindTag::Trait)
        } else if b == 6 {
            Some(ItemKindTag::Ability)
        } else {
            None
        }
    }

    /// Whether items of this sort are values, with an object behind them.
    pub open spec fn value(self) -> bool {
        self is Function || self is Const
    }

    /// The tag byte.
    pub fn as_u8(&self) -> (r: u8)
        ensures
            r == self.tag(),
    {
        match self {
            ItemKindTag::Function => 0,
            ItemKindTag::Const => 1,
            ItemKindTag::Struct => 2,
            ItemKindTag::Enum => 3,
            ItemKindTag::TypeAlias => 4,
            ItemKindTag::Trait => 5,
            ItemKindTag::Ability => 6,
        }
    }

    /// The sort with a given tag byte.
    pub fn from_u8(b: u8) -> (r: Option<ItemKindTag>)
        ensures
            r == ItemKindTag::from_tag(b),
    {
        match b {
            0 => Some(ItemKindTag::Function),
            1 => Some(ItemKindTag::Const),
            2 => Some(ItemKindTag::Struct),
            3 => Some(ItemKindTag::Enum),
            4 => Some(ItemKindTag::TypeAlias),
            5 => Some(ItemKindTag::Trait),
            6 => Some(ItemKindTag::Ability),
            _ => None,
        }
    }

    /// Whether items of this sort are values, with an object behind them.
    pub fn is_value(&self) -> (r: bool)
        ensures
            r == self.value(),
    {
        match self {
            ItemKindTag::Function => true,
            ItemKindTag::Const => true,
            _ => false,
        }
    }
}

impl Wire for ItemKindTag {
    type W = ItemKindTag;

    open spec fn content(&self) -> ItemKindTag {
        *self
    }

    open spec fn fits(w: ItemKindTag) -> bool {
        true
    }

    open spec fn bytes(w: ItemKindTag) -> Seq<u8> {
        seq![w.tag()]
    }

    open spec fn parse(s: Seq<u8>) -> Result<(ItemKindTag, int), WireError> {
        if s.len() == 0 {
            Err(WireError::Truncated)
        } else {
            match ItemKindTag::from_tag(s[0]) {
                Some(kind) => Ok((kind, 1)),
                None => Err(WireError::BadTag(s[0])),
            }
        }
    }

    proof fn reads_back(w: ItemKindTag, tail: Seq<u8>) {
    }

    proof fn reads_only_encodings(s: Seq<u8>) {
        if s.len() > 0 {
            assert(seq![s[0]] =~= s.take(1));
        }
    }

    proof fn cut_short(s: Seq<u8>, k: int) {
        if k > 0 {
            assert(s.take(k)[0] == s[0]);
        }
    }

    fn put(&self, out: &mut Vec<u8>) {
        out.push(self.as_u8());
        assert(out@ =~= old(out)@ + seq![self.tag()]);
    }

    fn get(r: &mut Reader<'_>) -> (res: Result<ItemKindTag, WireError>) {
        let raw = r.take(1)?;
        let b: u8 = raw[0];
        match ItemKindTag::from_u8(b) {
            Some(kind) => Ok(kind),
            None => Err(WireError::BadTag(b)),
        }
    }
}

/// One top-level item of a module's interface.
#[derive(Debug)]
pub struct ItemSummary {
    /// The ident path relative to the module.
    pub ident: Vec<String>,
    /// The sort of the item.
    pub kind: ItemKindTag,
    /// The nominal uuid, rendered; empty for items that have none.
    pub uuid: String,
    /// The byte range of the definition.
    pub span: (u32, u32),
    /// A one-line rendering for people.
    pub summary: String,
}

/// What a module shows of itself.
#[derive(Debug)]
pub struct InterfaceSummary {
    /// The hash of the resolved syntax tree.
    pub resolved_ast_hash: Digest,
    /// The hash of the interface.
    pub interface_hash: Digest,
    /// The source file relative to the package's source directory.
    pub source_path: String,
    /// The top-level items.
    pub items: Vec<ItemSummary>,
}

} // verus!
