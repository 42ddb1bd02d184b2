//! Objects and functions in memory.

use vstd::prelude::*;

use crate::bytecode::{CompiledFunction, FunctionView};
use crate::compiler::module_output::{function_map, MigrationRecord};
use crate::digest::Digest;
use crate::object::{function_pairs, materialized, object_hash, ObjectView, StoredObject};
use crate::ordmap::OrdMap;
use crate::wire::{ObjectFault, Wire};

verus! {

/// A runnable artifact: objects, the names that are bound to them, and where to
/// begin.
#[derive(Debug)]
pub struct Pack {
    /// The entry point, if there is one.
    pub entry_point: Option<Digest>,
    /// The names, each with the hash of its object.
    pub names: Vec<(String, Digest)>,
    /// The objects.
    pub objects: Vec<StoredObject>,
    /// The canonical signatures of the names.
    pub signatures: Vec<(String, String)>,
    /// The state migrations.
    pub migrations: Vec<MigrationRecord>,
}

/// Functions and leaf objects, by hash.
#[derive(Debug)]
pub struct Store {
    /// The functions.
    pub functions: OrdMap<Digest, CompiledFunction>,
    /// The values and native functions.
    pub leaves: OrdMap<Digest, StoredObject>,
}

/// What a [`Store`] holds.
#[verifier::ext_equal]
pub struct HeldView {
    /// The functions.
    pub functions: Map<Seq<u8>, FunctionView>,
    /// The values and native functions.
    pub leaves: Map<Seq<u8>, ObjectView>,
}

impl View for Store {
    type V = HeldView;

    open spec fn view(&self) -> HeldView {
        HeldView {
            functions: function_map(self.functions@),
            leaves: crate::compiler::module_output::object_map(self.leaves@),
        }
    }
}

/// Whether something is held under a hash.
pub open spec fn holds(v: HeldView, h: Seq<u8>) -> bool {
    v.functions.contains_key(h) || v.leaves.contains_key(h)
}

/// With functions added.
pub open spec fn with_functions(
    m: Map<Seq<u8>, FunctionView>,
    fs: Seq<(Seq<u8>, FunctionView)>,
) -> Map<Seq<u8>, FunctionView>
    decreases fs.len(),
{
    if fs.len() == 0 {
        m
    } else {
        with_functions(m, fs.drop_last()).insert(fs.last().0, fs.last().1)
    }
}

/// With an object added: its functions, each under its hash, or the leaf that
/// it is. A redirect is neither, and is refused.
pub open spec fn with_object(v: HeldView, o: ObjectView) -> Result<HeldView, ObjectFault> {
    match o {
        ObjectView::Redirect(_) => Err(ObjectFault::NotPlain),
        ObjectView::Value(_) | ObjectView::Native(_) => Ok(
            HeldView { leaves: v.leaves.insert(object_hash(o), o), ..v },
        ),
        _ => match materialized(o) {
            Err(e) => Err(e),
            Ok(fs) => Ok(HeldView { functions: with_functions(v.functions, fs), ..v }),
        },
    }
}

impl Store {
    /// A store that holds nothing.
    pub fn new() -> (r: Store)
        ensures
            r@ == (HeldView { functions: Map::empty(), leaves: Map::empty() }),
    {
        let r = Store { functions: OrdMap::new(), leaves: OrdMap::new() };
        assert(r@ =~= (HeldView { functions: Map::empty(), leaves: Map::empty() }));
        r
    }

    /// Whether something is held under a hash.
    pub fn contains(&self, hash: &Digest) -> (r: bool)
        ensures
            r == holds(self@, hash@),
    {
        self.functions.contains_key(hash) || self.leaves.contains_key(hash)
    }

    /// The function under a hash.
    pub fn get(&self, hash: &Digest) -> (r: Option<&CompiledFunction>)
        ensures
            match r {
                Some(f) => self@.functions.contains_key(hash@) && self@.functions[hash@] == f@,
                None => !self@.functions.contains_key(hash@),
            },
    {
        self.functions.get(hash)
    }

    /// Add what an object holds.
    pub fn add_object(&mut self, object: StoredObject) -> (r: Result<(), ObjectFault>)
        ensures
            match with_object(old(self)@, object.content()) {
                Ok(v) => r is Ok && final(self)@ == v,
                Err(e) => r matches Err(f) && f == e && final(self)@ == old(self)@,
            },
    {
        let ghost was = self@;
        match &object {
            StoredObject::Redirect(_) => Err(ObjectFault::NotPlain),
            StoredObject::Value(_) | StoredObject::Native(_) => {
                let hash = object.hash();
                let ghost o = object.content();
                self.leaves.insert(hash, object);
                assert(self@ =~= (HeldView { leaves: was.leaves.insert(hash@, o), ..was }));
                Ok(())
            },
            _ => {
                let mut fs = match object.materialize() {
                    Err(e) => {
                        return Err(e);
                    },
                    Ok(fs) => fs,
                };
                let ghost all = function_pairs(fs@);
                assert(all.take(0) =~= seq![]);
                assert(all.skip(0) =~= all);
                let ghost mut done: int = 0;
                while fs.len() > 0
                    invariant
                        0 <= done <= all.len(),
                        function_pairs(fs@) == all.skip(done),
                        self@ == (HeldView {
                            functions: with_functions(was.functions, all.take(done)),
                            ..was
                        }),
                    decreases fs@.len(),
                {
                    let ghost before = function_pairs(fs@);
                    let ghost now = self@;
                    assert(before.len() == fs@.len());
                    assert(all.skip(done).len() == all.len() - done);
                    assert(before[0] == all[done]);
                    let (hash, f) = fs.remove(0);
                    let ghost fv = f@;
                    assert(function_pairs(fs@) =~= before.skip(1));
                    assert(before.skip(1) =~= all.skip(done + 1));
                    assert(all.take(done + 1).drop_last() =~= all.take(done));
                    assert(all.take(done + 1).last() == (hash@, fv));
                    self.functions.insert(hash, f);
                    assert(self@ =~= (HeldView {
                        functions: now.functions.insert(hash@, fv),
                        ..was
                    }));
                    proof {
                        done = done + 1;
                    }
                }
                assert(function_pairs(fs@).len() == 0);
                assert(all.take(all.len() as int) =~= all);
                Ok(())
            },
        }
    }
}

} // verus!
