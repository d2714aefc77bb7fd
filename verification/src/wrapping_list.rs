use vstd::prelude::*;
use vstd::std_specs::cmp::PartialEqSpec;

verus! {

/// Index after `i` in a list of `len` items, wrapping from the last item to the first.
pub open spec fn spec_next_index(len: nat, i: nat) -> Option<nat> {
    if len == 0 {
        None
    } else if i == len - 1 {
        Some(0)
    } else {
        Some(i + 1)
    }
}

/// Index before `i` in a list of `len` items, wrapping from the first item to the last.
pub open spec fn spec_prev_index(len: nat, i: nat) -> Option<nat> {
    if len == 0 {
        None
    } else if i == 0 {
        Some((len - 1) as nat)
    } else {
        Some((i - 1) as nat)
    }
}

/// A list that is walked cyclically by index.
pub struct WrappingList<T>(pub Vec<T>);

impl<T> WrappingList<T> {
    /// The index after `focused_index`, back to the first after the last; nothing for an empty list.
    pub fn next_index(&self, focused_index: usize) -> (r: Option<usize>)
        requires
            !(self.0.len() > 0 && focused_index != self.0.len() - 1 && focused_index == usize::MAX),
        ensures
            r matches Some(n) ==> spec_next_index(self.0.len() as nat, focused_index as nat) == Some(n as nat),
            r is None <==> spec_next_index(self.0.len() as nat, focused_index as nat) is None,
    {
        if self.0.len() == 0 {
            return None;
        }
        if focused_index == self.0.len() - 1 {
            Some(0)
        } else {
            Some(focused_index + 1)
        }
    }

    /// The index before `focused_index`, back to the last before the first; nothing for an empty list.
    pub fn prev_index(&self, focused_index: usize) -> (r: Option<usize>)
        ensures
            r matches Some(n) ==> spec_prev_index(self.0.len() as nat, focused_index as nat) == Some(n as nat),
            r is None <==> spec_prev_index(self.0.len() as nat, focused_index as nat) is None,
    {
        if self.0.len() == 0 {
            return None;
        }
        if focused_index == 0 {
            Some(self.0.len() - 1)
        } else {
            Some(focused_index - 1)
        }
    }
}

/// Stepping forward from a position in the list lands in the list, and stepping back returns to it.
pub proof fn lemma_prev_undoes_next(len: nat, i: nat)
    requires
        i < len,
    ensures
        spec_next_index(len, i) matches Some(n) && n < len && spec_prev_index(len, n) == Some(i),
{
}

/// Stepping backward from a position in the list lands in the list, and stepping forward returns to it.
pub proof fn lemma_next_undoes_prev(len: nat, i: nat)
    requires
        i < len,
    ensures
        spec_prev_index(len, i) matches Some(p) && p < len && spec_next_index(len, p) == Some(i),
{
}

/// A type whose values carry a key by which they are found again in a list.
pub trait Keyed {
    type Key: Eq;

    spec fn spec_key(&self) -> Self::Key;

    fn key(&self) -> (k: &Self::Key)
        ensures
            *k == self.spec_key(),
    ;
}

/// Index of the first item of `s` whose key equals `key`.
pub open spec fn first_key_index<T: Keyed>(s: Seq<T>, key: T::Key) -> int
    recommends
        exists|i: int| 0 <= i < s.len() && s[i].spec_key().eq_spec(&key),
{
    choose|i: int|
        0 <= i < s.len() && s[i].spec_key().eq_spec(&key) && forall|j: int|
            0 <= j < i ==> !s[j].spec_key().eq_spec(&key)
}

/// A list of keyed items that is walked cyclically from the item with a given key.
pub struct KeyedWrappingList<T>(pub Vec<T>);

impl<T: Keyed> KeyedWrappingList<T> {
    /// Position of the first item whose key equals `focused`, if any.
    fn position_of(&self, focused: &T::Key) -> (r: Option<usize>)
        requires
            <T::Key as PartialEqSpec>::obeys_eq_spec(),
        ensures
            r matches Some(i) ==> i < self.0.len() && self.0@[i as int].spec_key().eq_spec(focused)
                && forall|j: int| 0 <= j < i ==> !self.0@[j].spec_key().eq_spec(focused),
            r is None ==> forall|j: int| 0 <= j < self.0.len() ==> !self.0@[j].spec_key().eq_spec(focused),
    {
        let mut i: usize = 0;
        while i < self.0.len()
            invariant
                i <= self.0.len(),
                <T::Key as PartialEqSpec>::obeys_eq_spec(),
                forall|j: int| 0 <= j < i ==> !self.0@[j].spec_key().eq_spec(focused),
            decreases self.0.len() - i,
        {
            if self.0[i].key().eq(focused) {
                return Some(i);
            }
            i = i + 1;
        }
        None
    }

    /// The item after the one whose key is `focused`, wrapping from the last item to the first.
    pub fn next_item(&self, focused: &T::Key) -> (r: Option<&T>)
        requires
            <T::Key as PartialEqSpec>::obeys_eq_spec(),
            self.0.len() > 0 ==> exists|i: int| 0 <= i < self.0.len() && self.0@[i].spec_key().eq_spec(focused),
        ensures
            self.0.len() == 0 ==> r is None,
            self.0.len() > 0 ==> r == Some(&self.0@[
                spec_next_index(self.0.len() as nat, first_key_index(self.0@, *focused) as nat).unwrap() as int]),
    {
        if self.0.len() == 0 {
            return None;
        }
        let current = match self.position_of(focused) {
            Some(c) => c,
            None => {
                proof {
                    let w = choose|i: int| 0 <= i < self.0.len() && self.0@[i].spec_key().eq_spec(focused);
                    assert(!self.0@[w].spec_key().eq_spec(focused));
                }
                return None;
            },
        };
        proof { lemma_first_key_index(self.0@, *focused, current as int); }
        if current == self.0.len() - 1 {
            Some(&self.0[0])
        } else {
            Some(&self.0[current + 1])
        }
    }

    /// The item before the one whose key is `focused`, wrapping from the first item to the last.
    pub fn prev_item(&self, focused: &T::Key) -> (r: Option<&T>)
        requires
            <T::Key as PartialEqSpec>::obeys_eq_spec(),
            self.0.len() > 0 ==> exists|i: int| 0 <= i < self.0.len() && self.0@[i].spec_key().eq_spec(focused),
        ensures
            self.0.len() == 0 ==> r is None,
            self.0.len() > 0 ==> r == Some(&self.0@[
                spec_prev_index(self.0.len() as nat, first_key_index(self.0@, *focused) as nat).unwrap() as int]),
    {
        if self.0.len() == 0 {
            return None;
        }
        let current = match self.position_of(focused) {
            Some(c) => c,
            None => {
                proof {
                    let w = choose|i: int| 0 <= i < self.0.len() && self.0@[i].spec_key().eq_spec(focused);
                    assert(!self.0@[w].spec_key().eq_spec(focused));
                }
                return None;
            },
        };
        proof { lemma_first_key_index(self.0@, *focused, current as int); }
        if current == 0 {
            Some(&self.0[self.0.len() - 1])
        } else {
            Some(&self.0[current - 1])
        }
    }
}

/// The first index with a matching key is the one `first_key_index` names.
proof fn lemma_first_key_index<T: Keyed>(s: Seq<T>, key: T::Key, i: int)
    requires
        0 <= i < s.len(),
        s[i].spec_key().eq_spec(&key),
        forall|j: int| 0 <= j < i ==> !s[j].spec_key().eq_spec(&key),
    ensures
        first_key_index(s, key) == i,
{
    let c = first_key_index(s, key);
    assert(0 <= c < s.len() && s[c].spec_key().eq_spec(&key) && forall|j: int| 0 <= j < c ==> !s[j].spec_key().eq_spec(&key));
    if c < i {
        assert(!s[c].spec_key().eq_spec(&key));
    } else if c > i {
        assert(!s[i].spec_key().eq_spec(&key));
    }
}

} // verus!
