use vstd::prelude::*;

use std::collections::HashMap;

verus! {

/// What an error boundary does to its view when it is rebuilt.
#[derive(Debug, Clone, Copy, PartialEq, Eq, Structural)]
pub enum BoundaryAction {
    /// Build the children, and the fallback too when there are errors (first build).
    Build { with_fallback: bool },
    /// The errors are gone: put the children back where the fallback was.
    ShowChildren,
    /// Errors came: build the fallback and put it where the children were.
    ShowFallback,
    /// What is shown already fits the errors.
    Keep,
}

/// The action for a boundary whose errors are now `errors_empty` (or not), given whether
/// it was built before and, if so, whether it was showing its fallback.
pub fn boundary_action(errors_empty: bool, showing_fallback: Option<bool>) -> (r: BoundaryAction)
    ensures
        r == match showing_fallback {
            None => BoundaryAction::Build { with_fallback: !errors_empty },
            Some(true) => if errors_empty {
                BoundaryAction::ShowChildren
            } else {
                BoundaryAction::Keep
            },
            Some(false) => if errors_empty {
                BoundaryAction::Keep
            } else {
                BoundaryAction::ShowFallback
            },
        },
{
    match showing_fallback {
        None => BoundaryAction::Build { with_fallback: !errors_empty },
        Some(fallback) => match (errors_empty, fallback) {
            (true, true) => BoundaryAction::ShowChildren,
            (false, false) => BoundaryAction::ShowFallback,
            _ => BoundaryAction::Keep,
        },
    }
}

broadcast use vstd::std_specs::hash::group_hash_axioms;

/// The errors thrown below an error boundary, each under the number it was thrown with.
/// The library only stores the error values, of whatever type `E` stands for them.
pub struct Errors<E> {
    map: HashMap<usize, E>,
}

impl<E> View for Errors<E> {
    type V = Map<usize, E>;

    closed spec fn view(&self) -> Map<usize, E> {
        self.map@
    }
}

impl<E> Default for Errors<E> {
    /// No errors.
    fn default() -> (r: Errors<E>)
        ensures
            r@ == Map::<usize, E>::empty(),
    {
        Errors { map: HashMap::new() }
    }
}

impl<E> Errors<E> {
    /// Whether there are no errors.
    pub fn is_empty(&self) -> (r: bool)
        ensures
            r == self@.is_empty(),
    {
        self.map.is_empty()
    }

    /// Stores `error` under `key`, in place of any error stored there before.
    pub fn insert(&mut self, key: usize, error: E)
        ensures
            final(self)@ == old(self)@.insert(key, error),
    {
        self.map.insert(key, error);
    }

    /// Stores `error` under the default key, 0, which errors thrown outside the
    /// reactive system share.
    pub fn insert_with_default_key(&mut self, error: E)
        ensures
            final(self)@ == old(self)@.insert(0, error),
    {
        self.map.insert(0, error);
    }

    /// Takes out the error stored under `key`, if any.
    pub fn remove(&mut self, key: usize) -> (r: Option<E>)
        ensures
            final(self)@ == old(self)@.remove(key),
            r == if old(self)@.contains_key(key) {
                Some(old(self)@[key])
            } else {
                None::<E>
            },
    {
        self.map.remove(&key)
    }
}

/// The map that stores each pair of `s` in turn, so that a later pair for a key wins.
pub open spec fn pairs_to_map<E>(s: Seq<(usize, E)>) -> Map<usize, E>
    decreases s.len(),
{
    if s.len() == 0 {
        Map::empty()
    } else {
        pairs_to_map(s.drop_last()).insert(s.last().0, s.last().1)
    }
}

/// The hook an error boundary installs: it numbers the errors thrown below the boundary
/// and keeps them until they are cleared.
pub struct ErrorBoundaryErrorHook<E> {
    id: usize,
    errors: Errors<E>,
}

impl<E> ErrorBoundaryErrorHook<E> {
    /// The number the next thrown error gets.
    pub closed spec fn next_id(&self) -> usize {
        self.id
    }

    /// The errors thrown and not cleared.
    pub closed spec fn errors(&self) -> Map<usize, E> {
        self.errors@
    }

    /// A hook holding `initial_errors` (a later pair for a key wins), whose first thrown
    /// error gets the number 0.
    pub fn new(initial_errors: Vec<(usize, E)>) -> (r: ErrorBoundaryErrorHook<E>)
        ensures
            r.next_id() == 0,
            r.errors() == pairs_to_map(initial_errors@),
    {
        let mut errors: Errors<E> = Errors::default();
        let mut rest = initial_errors;
        let ghost all = rest@;
        let ghost mut taken: int = 0;
        proof {
            assert(all.take(0) =~= Seq::<(usize, E)>::empty());
            assert(all.skip(0) =~= all);
        }
        while rest.len() > 0
            invariant
                0 <= taken <= all.len(),
                rest@ == all.skip(taken),
                errors@ == pairs_to_map(all.take(taken)),
            decreases rest@.len(),
        {
            let (k, e) = rest.remove(0);
            proof {
                assert(all.take(taken + 1).drop_last() =~= all.take(taken));
                assert(all.take(taken + 1).last() == all[taken]);
                assert(all.skip(taken + 1) =~= all.skip(taken).drop_first());
            }
            errors.insert(k, e);
            proof {
                taken = taken + 1;
            }
        }
        proof {
            assert(all.take(taken) =~= all);
        }
        ErrorBoundaryErrorHook { id: 0, errors }
    }

    /// Stores a thrown `error` under the next number, which it gives back for the view
    /// that threw it to clear it with; the numbering wraps around after `usize::MAX`.
    pub fn throw(&mut self, error: E) -> (r: usize)
        ensures
            r == old(self).next_id(),
            final(self).next_id() == old(self).next_id().wrapping_add(1),
            final(self).errors() == old(self).errors().insert(r, error),
    {
        let key = self.id;
        self.id = self.id.wrapping_add(1);
        self.errors.insert(key, error);
        key
    }

    /// Drops the error numbered `id`, if it is still stored.
    pub fn clear(&mut self, id: usize)
        ensures
            final(self).next_id() == old(self).next_id(),
            final(self).errors() == old(self).errors().remove(id),
    {
        let _ = self.errors.remove(id);
    }

    /// Whether no error is stored, which decides whether the boundary shows its children.
    pub fn errors_empty(&self) -> (r: bool)
        ensures
            r == self.errors().is_empty(),
    {
        self.errors.is_empty()
    }
}

/// Clearing an error with the number its throw gave back leaves the stored errors as
/// they were before the throw, when nothing was stored under that number.
pub proof fn lemma_clear_undoes_throw<E>(errors: Map<usize, E>, id: usize, error: E)
    requires
        !errors.contains_key(id),
    ensures
        errors.insert(id, error).remove(id) == errors,
{
    assert(errors.insert(id, error).remove(id) =~= errors);
}

/// Once an error is thrown the boundary has an error to show, whatever was stored before.
pub proof fn lemma_thrown_error_is_shown<E>(errors: Map<usize, E>, id: usize, error: E)
    ensures
        !errors.insert(id, error).is_empty(),
{
    assert(errors.insert(id, error).dom().contains(id));
}

} // verus!
