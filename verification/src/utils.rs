//! Small collection utilities: lookup-with-default on the ledger mapping and
//! copy-on-write style push and remove on vectors.

use vstd::prelude::*;

use crate::transactions::assoc_first;
use crate::types::{ClientId, ClientState, StateModel};

verus! {

/// Lookup that hands out a default value when nothing is stored.
pub trait OrDefault<K, V: View> {
    /// The model of the stored value for `item`, if one is stored.
    spec fn lookup(&self, item: K) -> Option<<V as View>::V>;

    /// The model of the value handed out when nothing is stored.
    spec fn default_model(&self) -> <V as View>::V;

    /// The stored value for `item`, or the default when there is none.
    fn get_or_default(&self, item: &K) -> (r: V)
        ensures
            r@ == match self.lookup(*item) {
                Some(m) => m,
                None => self.default_model(),
            },
    ;
}

impl OrDefault<ClientId, ClientState> for Vec<(ClientId, ClientState)> {
    open spec fn lookup(&self, item: ClientId) -> Option<StateModel> {
        assoc_first(self@, item)
    }

    open spec fn default_model(&self) -> StateModel {
        StateModel::empty()
    }

    /// The state stored for a client, or the all-zero unlocked state when the
    /// client has not appeared yet.
    fn get_or_default(&self, item: &ClientId) -> (r: ClientState)
        ensures
            r@ == match self.lookup(*item) {
                Some(m) => m,
                None => self.default_model(),
            },
    {
        let mut i: usize = 0;
        proof {
            assert(self@.skip(0) =~= self@);
        }
        while i < self.len()
            invariant
                i <= self.len(),
                assoc_first(self@, *item) == assoc_first(self@.skip(i as int), *item),
            decreases self.len() - i,
        {
            proof {
                assert(self@.skip(i as int)[0] == self@[i as int]);
                assert(self@.skip(i as int).drop_first() =~= self@.skip(i + 1 as int));
            }
            if self[i].0 == *item {
                return self[i].1.duplicate();
            }
            i = i + 1;
        }
        ClientState::default()
    }
}

/// Push that leaves the original vector untouched and hands back an extended
/// copy.
pub trait PushImmut<T> {
    /// The contents of the extended copy.
    spec fn push_model(&self, item: T) -> Seq<T>;

    /// A copy of `self` with `item` appended.
    fn push(&self, item: T) -> (r: Vec<T>)
        ensures
            r@ == self.push_model(item),
    ;
}

impl<T: Copy> PushImmut<T> for Vec<T> {
    open spec fn push_model(&self, item: T) -> Seq<T> {
        self@.push(item)
    }

    fn push(&self, item: T) -> (r: Vec<T>) {
        let mut r: Vec<T> = Vec::new();
        let mut i: usize = 0;
        while i < self.len()
            invariant
                i <= self.len(),
                r@ == self@.take(i as int),
            decreases self.len() - i,
        {
            Vec::push(&mut r, self[i]);
            proof {
                assert(r@ =~= self@.take(i + 1 as int));
            }
            i = i + 1;
        }
        Vec::push(&mut r, item);
        proof {
            assert(r@ =~= self@.push(item));
        }
        r
    }
}

/// Remove-by-index that leaves the original vector untouched and hands back
/// a shortened copy.
pub trait RemoveImmut<T> {
    /// Whether `idx` is a position a copy can be made without.
    spec fn can_remove(&self, idx: int) -> bool;

    /// The contents of the shortened copy.
    spec fn remove_idx_model(&self, idx: int) -> Seq<T>;

    /// A copy of `self` without the element at `idx`.
    fn remove_idx(&self, idx: usize) -> (r: Vec<T>)
        requires
            self.can_remove(idx as int),
        ensures
            r@ == self.remove_idx_model(idx as int),
    ;
}

impl<T: Copy> RemoveImmut<T> for Vec<T> {
    open spec fn can_remove(&self, idx: int) -> bool {
        0 <= idx < self@.len()
    }

    open spec fn remove_idx_model(&self, idx: int) -> Seq<T> {
        self@.remove(idx)
    }

    fn remove_idx(&self, idx: usize) -> (r: Vec<T>) {
        let mut r: Vec<T> = Vec::new();
        let mut i: usize = 0;
        while i < self.len()
            invariant
                i <= self.len(),
                idx < self.len(),
                r@ == (if i <= idx {
                    self@.take(i as int)
                } else {
                    self@.remove(idx as int).take(i - 1)
                }),
            decreases self.len() - i,
        {
            if i != idx {
                Vec::push(&mut r, self[i]);
                proof {
                    self@.remove_ensures(idx as int);
                    if i < idx {
                        assert(r@ =~= self@.take(i + 1 as int));
                    } else {
                        assert(r@ =~= self@.remove(idx as int).take(i as int));
                    }
                }
            } else {
                proof {
                    self@.remove_ensures(idx as int);
                    assert(self@.take(i as int) =~= self@.remove(idx as int).take(i as int));
                }
            }
            i = i + 1;
        }
        proof {
            self@.remove_ensures(idx as int);
            assert(r@ =~= self@.remove(idx as int));
        }
        r
    }
}

} // verus!
