use vstd::prelude::*;
use vstd::std_specs::cmp::{OrdSpec, PartialOrdSpec};
use core::cmp::Ordering;

verus! {

/// A lawful total order: the executable comparison matches its
/// specification, and the specification flips between sides and is
/// transitive. Every sane `Ord` implementation satisfies this.
pub open spec fn cmp_lawful<K: Ord>() -> bool {
    &&& K::obeys_cmp_spec()
    &&& forall|x: K, y: K|
        #![trigger x.cmp_spec(&y)]
        #![trigger y.cmp_spec(&x)]
        (x.cmp_spec(&y) == Ordering::Less <==> y.cmp_spec(&x) == Ordering::Greater)
    &&& forall|x: K, y: K, z: K|
        #![trigger x.cmp_spec(&y), y.cmp_spec(&z)]
        (x.cmp_spec(&y) == Ordering::Less && y.cmp_spec(&z) == Ordering::Less ==> x.cmp_spec(&z)
            == Ordering::Less)
}

/// Transitivity of a lawful total order's comparison.
proof fn lemma_cmp_trans<K: Ord>(x: K, y: K, z: K)
    requires
        cmp_lawful::<K>(),
        x.cmp_spec(&y) == Ordering::Less,
        y.cmp_spec(&z) == Ordering::Less,
    ensures
        x.cmp_spec(&z) == Ordering::Less,
{
}

/// A lawful comparison flips between the two sides.
proof fn lemma_cmp_flip<K: Ord>(x: K, y: K)
    requires
        cmp_lawful::<K>(),
    ensures
        (x.cmp_spec(&y) == Ordering::Greater) <==> (y.cmp_spec(&x) == Ordering::Less),
{
    assert(y.cmp_spec(&x) == Ordering::Less <==> x.cmp_spec(&y) == Ordering::Greater);
}

/// A map kept as a vector of entries sorted strictly by key.
#[derive(Default, Debug, PartialEq, Eq)]
pub struct FlatMap<K, V>(pub Vec<(K, V)>);

impl<K: Ord, V> FlatMap<K, V> {
    /// The entries in storage order.
    pub open spec fn view(self) -> Seq<(K, V)> {
        self.0@
    }

    /// Strictly ascending keys; all contracts below assume an order whose
    /// comparison obeys its specification.
    pub open spec fn wf(self) -> bool {
        forall|i: int, j: int|
            0 <= i < j < self@.len() ==> (#[trigger] self@[i]).0.cmp_spec(
                &(#[trigger] self@[j]).0,
            ) == Ordering::Less
    }

    pub fn new() -> (r: Self)
        ensures
            r.wf(),
            r@.len() == 0,
    {
        FlatMap(Vec::new())
    }

    pub fn len(&self) -> (r: usize)
        ensures
            r == self@.len(),
    {
        self.0.len()
    }

    pub fn is_empty(&self) -> (r: bool)
        ensures
            r == (self@.len() == 0),
    {
        self.0.is_empty()
    }

    pub fn capacity(&self) -> (r: usize)
        ensures
            r >= self@.len(),
    {
        crate::trusted::vec_capacity(&self.0)
    }

    pub fn as_slice(&self) -> (r: &[(K, V)])
        ensures
            r@ == self@,
    {
        self.0.as_slice()
    }

    pub fn test_bor(&self) -> (r: &Self)
        ensures
            r == self,
    {
        self
    }

    /// Binary search: the position of the key comparing equal, or the
    /// insertion point that keeps the keys sorted.
    fn locate(&self, key: &K) -> (r: Result<usize, usize>)
        requires
            cmp_lawful::<K>(),
            self.wf(),
        ensures
            match r {
                Ok(i) => 0 <= i < self@.len() && self@[i as int].0.cmp_spec(key)
                    == Ordering::Equal,
                Err(i) => {
                    &&& 0 <= i <= self@.len()
                    &&& forall|j: int|
                        0 <= j < i ==> (#[trigger] self@[j]).0.cmp_spec(key) == Ordering::Less
                    &&& forall|j: int|
                        i <= j < self@.len() ==> (#[trigger] self@[j]).0.cmp_spec(key)
                            == Ordering::Greater
                },
            },
    {
        let mut lo: usize = 0;
        let mut hi: usize = self.0.len();
        while lo < hi
            invariant
                cmp_lawful::<K>(),
                self.wf(),
                lo <= hi <= self@.len(),
                forall|j: int|
                    0 <= j < lo ==> (#[trigger] self@[j]).0.cmp_spec(key) == Ordering::Less,
                forall|j: int|
                    hi <= j < self@.len() ==> (#[trigger] self@[j]).0.cmp_spec(key)
                        == Ordering::Greater,
            decreases hi - lo,
        {
            let mid = lo + (hi - lo) / 2;
            let pair = &self.0[mid];
            proof {
                assert(K::obeys_cmp_spec());
            }
            match pair.0.cmp(key) {
                Ordering::Less => {
                    proof {
                        assert(self@[mid as int].0.cmp_spec(key) == Ordering::Less);
                        assert forall|j: int| 0 <= j < mid + 1 implies (
                        #[trigger] self@[j]).0.cmp_spec(key) == Ordering::Less by {
                            if j < mid {
                                assert(self@[j].0.cmp_spec(&self@[mid as int].0)
                                    == Ordering::Less);
                                lemma_cmp_trans(self@[j].0, self@[mid as int].0, *key);
                            }
                        }
                    }
                    lo = mid + 1;
                },
                Ordering::Greater => {
                    proof {
                        assert(self@[mid as int].0.cmp_spec(key) == Ordering::Greater);
                        assert forall|j: int| mid <= j < self@.len() implies (
                        #[trigger] self@[j]).0.cmp_spec(key) == Ordering::Greater by {
                            if j > mid {
                                assert(self@[mid as int].0.cmp_spec(&self@[j].0)
                                    == Ordering::Less);
                                lemma_cmp_flip(self@[mid as int].0, *key);
                                lemma_cmp_trans(*key, self@[mid as int].0, self@[j].0);
                                lemma_cmp_flip(self@[j].0, *key);
                            }
                        }
                    }
                    hi = mid;
                },
                Ordering::Equal => {
                    proof {
                        assert(self@[mid as int].0.cmp_spec(key) == Ordering::Equal);
                    }
                    return Ok(mid);
                },
            }
        }
        Err(lo)
    }

    /// Puts `value` under `key`: an entry whose key compares equal keeps
    /// its stored key and hands its old value back, otherwise the new
    /// entry goes in at the sorted position.
    pub fn insert(&mut self, key: K, value: V) -> (r: Option<V>)
        requires
            cmp_lawful::<K>(),
            old(self).wf(),
            old(self)@.len() < usize::MAX,
        ensures
            final(self).wf(),
            match r {
                Some(old_v) => {
                    exists|i: int|
                        {
                            &&& 0 <= i < old(self)@.len()
                            &&& (#[trigger] old(self)@[i]).0.cmp_spec(&key) == Ordering::Equal
                            &&& old_v == old(self)@[i].1
                            &&& final(self)@ == old(self)@.update(
                                i,
                                (old(self)@[i].0, value),
                            )
                        }
                },
                None => {
                    &&& (forall|i: int|
                        0 <= i < old(self)@.len() ==> (#[trigger] old(self)@[i]).0.cmp_spec(&key)
                            != Ordering::Equal)
                    &&& final(self)@.len() == old(self)@.len() + 1
                    &&& exists|i: int|
                        0 <= i <= old(self)@.len() && final(self)@ == old(self)@.insert(
                            i,
                            (key, value),
                        )
                },
            },
    {
        let r = self.locate(&key);
        match r {
            Ok(i) => {
                let mut tmp = value;
                let pair = &mut self.0[i];
                core::mem::swap(&mut pair.1, &mut tmp);
                proof {
                    assert(self@ =~= old(self)@.update(i as int, (old(self)@[i as int].0, value)));
                    assert forall|a: int, b: int|
                        0 <= a < b < self@.len() implies (#[trigger] self@[a]).0.cmp_spec(
                        &(#[trigger] self@[b]).0,
                    ) == Ordering::Less by {
                        assert(old(self)@[a].0.cmp_spec(&old(self)@[b].0) == Ordering::Less);
                    }
                }
                Some(tmp)
            },
            Err(i) => {
                self.0.insert(i, (key, value));
                proof {
                    let s0 = old(self)@;
                    let s1 = self@;
                    assert(s1 == s0.insert(i as int, (key, value)));
                    assert forall|a: int, b: int|
                        0 <= a < b < s1.len() implies (#[trigger] s1[a]).0.cmp_spec(
                        &(#[trigger] s1[b]).0,
                    ) == Ordering::Less by {
                        if a < i && b == i {
                            assert(s1[a] == s0[a] && s1[b].0 == key);
                            assert(s0[a].0.cmp_spec(&key) == Ordering::Less);
                        } else if a == i && b > i {
                            assert(s1[a].0 == key && s1[b] == s0[b - 1]);
                            assert(s0[b - 1].0.cmp_spec(&key) == Ordering::Greater);
                            lemma_cmp_flip(s0[b - 1].0, key);
                        } else if a < i && b > i {
                            assert(s1[a] == s0[a] && s1[b] == s0[b - 1]);
                            assert(s0[a].0.cmp_spec(&s0[b - 1].0) == Ordering::Less);
                        } else if a >= i && b > i && a != i {
                            assert(s1[a] == s0[a - 1] && s1[b] == s0[b - 1]);
                            assert(s0[a - 1].0.cmp_spec(&s0[b - 1].0) == Ordering::Less);
                        } else {
                            assert(s1[a] == s0[a] && s1[b] == s0[b]);
                            assert(s0[a].0.cmp_spec(&s0[b].0) == Ordering::Less);
                        }
                    }
                }
                None
            },
        }
    }

    /// The value under the key comparing equal, if any.
    pub fn get(&self, key: &K) -> (r: Option<&V>)
        requires
            cmp_lawful::<K>(),
            self.wf(),
        ensures
            match r {
                Some(v) => exists|i: int|
                    0 <= i < self@.len() && (#[trigger] self@[i]).0.cmp_spec(key)
                        == Ordering::Equal && v == self@[i].1,
                None => forall|i: int|
                    0 <= i < self@.len() ==> (#[trigger] self@[i]).0.cmp_spec(key)
                        != Ordering::Equal,
            },
    {
        match self.locate(key) {
            Ok(i) => Some(&self.0[i].1),
            Err(_) => None,
        }
    }

    /// Removes the entry whose key compares equal and hands its value back.
    pub fn remove(&mut self, key: &K) -> (r: Option<V>)
        requires
            cmp_lawful::<K>(),
            old(self).wf(),
        ensures
            final(self).wf(),
            match r {
                Some(v) => exists|i: int|
                    {
                        &&& 0 <= i < old(self)@.len()
                        &&& (#[trigger] old(self)@[i]).0.cmp_spec(key) == Ordering::Equal
                        &&& v == old(self)@[i].1
                        &&& final(self)@ == old(self)@.remove(i)
                    },
                None => final(self)@ == old(self)@ && forall|i: int|
                    0 <= i < old(self)@.len() ==> (#[trigger] old(self)@[i]).0.cmp_spec(key)
                        != Ordering::Equal,
            },
    {
        match self.remove_entry(key) {
            Some((_, v)) => Some(v),
            None => None,
        }
    }

    /// Removes the entry whose key compares equal and hands it back whole.
    pub fn remove_entry(&mut self, key: &K) -> (r: Option<(K, V)>)
        requires
            cmp_lawful::<K>(),
            old(self).wf(),
        ensures
            final(self).wf(),
            match r {
                Some(kv) => exists|i: int|
                    {
                        &&& 0 <= i < old(self)@.len()
                        &&& (#[trigger] old(self)@[i]).0.cmp_spec(key) == Ordering::Equal
                        &&& kv == old(self)@[i]
                        &&& final(self)@ == old(self)@.remove(i)
                    },
                None => final(self)@ == old(self)@ && forall|i: int|
                    0 <= i < old(self)@.len() ==> (#[trigger] old(self)@[i]).0.cmp_spec(key)
                        != Ordering::Equal,
            },
    {
        let r = self.locate(key);
        match r {
            Ok(i) => {
                let kv = self.0.remove(i);
                proof {
                    assert forall|a: int, b: int|
                        0 <= a < b < self@.len() implies (#[trigger] self@[a]).0.cmp_spec(
                        &(#[trigger] self@[b]).0,
                    ) == Ordering::Less by {
                        let sa: int = if a < i {
                            a
                        } else {
                            a + 1
                        };
                        let sb: int = if b < i {
                            b
                        } else {
                            b + 1
                        };
                        assert(old(self)@[sa].0.cmp_spec(&old(self)@[sb].0) == Ordering::Less);
                    }
                }
                Some(kv)
            },
            Err(_) => None,
        }
    }
}

} // verus!
