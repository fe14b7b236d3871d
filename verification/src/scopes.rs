//! Scopes as the type checker holds them.

use crate::typing::{Scope, TypeInfo};
use vstd::prelude::*;

verus! {

/// A name with the type it is bound to.
#[derive(Debug)]
pub struct Binding {
    name: String,
    ty: TypeInfo,
}

/// The scope that a list of bindings stands for: each name with its type,
/// a later binding of a name before an earlier one.
pub closed spec fn scope_of(bindings: Seq<Binding>) -> Scope
    decreases bindings.len(),
{
    if bindings.len() == 0 {
        Map::empty()
    } else {
        scope_of(bindings.drop_last()).insert(bindings.last().name@, bindings.last().ty)
    }
}

/// A list of bindings binds the names in it and no others.
proof fn lemma_scope_names(bindings: Seq<Binding>, name: Seq<char>)
    ensures
        scope_of(bindings).contains_key(name) <==> exists|i: int|
            0 <= i < bindings.len() && (#[trigger] bindings[i]).name@ == name,
    decreases bindings.len(),
{
    if bindings.len() > 0 {
        let front = bindings.drop_last();
        lemma_scope_names(front, name);
        if scope_of(bindings).contains_key(name) {
            if bindings.last().name@ == name {
                assert(bindings[bindings.len() - 1].name@ == name);
            } else {
                let i = choose|i: int| 0 <= i < front.len() && (#[trigger] front[i]).name@ == name;
                assert(bindings[i].name@ == name);
            }
        } else {
            assert forall|i: int| 0 <= i < bindings.len() implies (#[trigger] bindings[i]).name@
                != name by {
                if i < front.len() {
                    assert(front[i].name@ != name);
                }
            }
        }
    }
}

/// Putting a new type in the place of the only binding of a name gives the
/// scope in which the name has the new type.
proof fn lemma_scope_update(bindings: Seq<Binding>, i: int, binding: Binding)
    requires
        0 <= i < bindings.len(),
        bindings[i].name@ == binding.name@,
        forall|j: int| i < j < bindings.len() ==> (#[trigger] bindings[j]).name@ != binding.name@,
    ensures
        scope_of(bindings.update(i, binding)) == scope_of(bindings).insert(
            binding.name@,
            binding.ty,
        ),
    decreases bindings.len(),
{
    let updated = bindings.update(i, binding);
    let front = bindings.drop_last();
    if i == bindings.len() - 1 {
        assert(updated.drop_last() =~= front);
        assert(scope_of(updated) =~= scope_of(bindings).insert(binding.name@, binding.ty));
    } else {
        assert(updated.drop_last() =~= front.update(i, binding));
        assert forall|j: int| i < j < front.len() implies (#[trigger] front[j]).name@
            != binding.name@ by {
            assert(front[j] == bindings[j]);
        }
        lemma_scope_update(front, i, binding);
        assert(bindings[bindings.len() - 1].name@ != binding.name@);
        assert(scope_of(updated) =~= scope_of(bindings).insert(binding.name@, binding.ty));
    }
}

/// The names that one block has bound so far, each once, with their types.
#[derive(Debug)]
pub struct Bindings {
    entries: Vec<Binding>,
}

impl View for Bindings {
    type V = Scope;

    /// The scope as a map from names to types.
    closed spec fn view(&self) -> Scope {
        scope_of(self.entries@)
    }
}

impl Bindings {
    /// No name is bound twice.
    #[verifier::type_invariant]
    spec fn names_are_distinct(&self) -> bool {
        forall|i: int, j: int|
            0 <= i < j < self.entries@.len() ==> (#[trigger] self.entries@[i]).name@ != (
            #[trigger] self.entries@[j]).name@
    }

    /// A scope without bindings.
    pub fn new() -> (scope: Self)
        ensures
            scope@ == Map::<Seq<char>, TypeInfo>::empty(),
    {
        Bindings { entries: Vec::new() }
    }

    /// Where the name is bound in the list, if it is.
    fn position(&self, name: &String) -> (at: Option<usize>)
        ensures
            match at {
                Some(i) => i < self.entries@.len() && self.entries@[i as int].name@ == name@,
                None => forall|j: int|
                    0 <= j < self.entries@.len() ==> (#[trigger] self.entries@[j]).name@ != name@,
            },
    {
        let mut i: usize = 0;
        while i < self.entries.len()
            invariant
                i <= self.entries.len(),
                forall|j: int| 0 <= j < i ==> (#[trigger] self.entries@[j]).name@ != name@,
            decreases self.entries.len() - i,
        {
            if self.entries[i].name == *name {
                return Some(i);
            }
            i += 1;
        }
        None
    }

    /// The type that the name is bound to, if it is bound.
    pub fn get(&self, name: &String) -> (ty: Option<TypeInfo>)
        ensures
            ty == if self@.contains_key(name@) {
                Some(self@[name@])
            } else {
                None
            },
    {
        proof {
            use_type_invariant(self);
            lemma_scope_names(self.entries@, name@);
        }
        match self.position(name) {
            Some(i) => {
                let binding = &self.entries[i];
                proof {
                    let same = Binding { name: binding.name, ty: binding.ty };
                    assert(self.entries@.update(i as int, same) =~= self.entries@);
                    lemma_scope_update(self.entries@, i as int, same);
                }
                Some(binding.ty)
            },
            None => None,
        }
    }

    /// Binds the name to the type, in place of what it was bound to.
    pub fn set(&mut self, name: String, ty: TypeInfo)
        ensures
            final(self)@ == old(self)@.insert(name@, ty),
    {
        proof {
            use_type_invariant(&*self);
        }
        let at = self.position(&name);
        // The list is taken out while it changes, and put back when no name
        // is in it twice again.
        let mut entries: Vec<Binding> = Vec::new();
        std::mem::swap(&mut entries, &mut self.entries);
        let ghost before = entries@;
        let binding = Binding { name, ty };
        match at {
            Some(i) => {
                proof {
                    lemma_scope_update(before, i as int, binding);
                }
                entries[i] = binding;
            },
            None => {
                entries.push(binding);
                assert(entries@.drop_last() =~= before);
            },
        }
        std::mem::swap(&mut entries, &mut self.entries);
    }
}

} // verus!
