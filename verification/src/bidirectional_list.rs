//! An append-only store that hands out dense ids for the values pushed into it
//! and finds the id of a value again.

use std::collections::HashMap;
use vstd::prelude::*;

verus! {

broadcast use vstd::std_specs::hash::group_hash_axioms;

/// What a value must offer to be stored in a [`BidirectionalList`]: a digest
/// that depends on its view alone, and a test for equal views.
pub trait Indexable: View + Sized {
    /// The digest of a value with the view `v`.
    spec fn spec_digest(v: Self::V) -> u64;

    /// Computes the digest of this value.
    fn digest(&self) -> (h: u64)
        ensures
            h == Self::spec_digest(self@),
    ;

    /// Tells whether two values have the same view.
    fn same(&self, other: &Self) -> (r: bool)
        ensures
            r == (self@ == other@),
    ;
}

/// The position of the last occurrence of `v` in `s`, if it occurs at all.
pub open spec fn last_position<V>(s: Seq<V>, v: V) -> Option<int>
    decreases s.len(),
{
    if s.len() == 0 {
        None
    } else if s.last() == v {
        Some(s.len() - 1)
    } else {
        last_position(s.drop_last(), v)
    }
}

/// `last_position` finds `v` exactly when `s` contains it, and what it finds
/// is the greatest index that holds `v`.
pub proof fn lemma_last_position<V>(s: Seq<V>, v: V)
    ensures
        last_position(s, v) is Some <==> s.contains(v),
        last_position(s, v) matches Some(i) ==> {
            &&& 0 <= i < s.len()
            &&& s[i] == v
            &&& forall|k: int| i < k < s.len() ==> s[k] != v
        },
    decreases s.len(),
{
    if s.len() == 0 {
    } else if s.last() == v {
        assert(s[s.len() - 1] == v);
    } else {
        let t = s.drop_last();
        lemma_last_position(t, v);
        if s.contains(v) {
            let i = choose|i: int| 0 <= i < s.len() && s[i] == v;
            assert(t[i] == v);
        }
        if t.contains(v) {
            let i = choose|i: int| 0 <= i < t.len() && t[i] == v;
            assert(s[i] == v);
        }
        if let Some(i) = last_position(t, v) {
            assert forall|k: int| i < k < s.len() implies s[k] != v by {
                if k < t.len() {
                    assert(t[k] != v);
                }
            }
        }
    }
}

/// An index that is the last to hold `v` is what `last_position` finds.
pub proof fn lemma_last_position_is<V>(s: Seq<V>, v: V, i: int)
    requires
        0 <= i < s.len(),
        s[i] == v,
        forall|k: int| i < k < s.len() ==> s[k] != v,
    ensures
        last_position(s, v) == Some(i),
{
    lemma_last_position(s, v);
    assert(s.contains(v));
}

/// Values in the order in which they were pushed, each known by its position,
/// with an index from a value back to the position it was last pushed at.
pub struct BidirectionalList<T: Indexable> {
    index: Vec<T>,
    inverse_index: HashMap<u64, Vec<usize>>,
}

impl<T: Indexable> View for BidirectionalList<T> {
    type V = Seq<T::V>;

    /// The views of the stored values, in the order of their ids.
    closed spec fn view(&self) -> Seq<T::V> {
        self.index@.map_values(|t: T| t@)
    }
}

impl<T: Indexable> BidirectionalList<T> {
    /// The digest of the value stored at position `i`.
    spec fn digest_at(&self, i: int) -> u64 {
        T::spec_digest(self.index@[i]@)
    }

    /// The positions filed under the digest `h`: each holds a value with that
    /// digest, and they stand in increasing order.
    spec fn bucket_ok(&self, h: u64, bucket: Seq<usize>) -> bool {
        &&& forall|j: int|
            0 <= j < bucket.len() ==> (#[trigger] bucket[j]) < self.index@.len()
                && self.digest_at(bucket[j] as int) == h
        &&& forall|j: int, k: int| 0 <= j < k < bucket.len() ==> bucket[j] < bucket[k]
    }

    /// Whether the position `i` is filed under the digest of its value.
    spec fn filed(&self, i: int) -> bool {
        &&& self.inverse_index@.contains_key(self.digest_at(i))
        &&& exists|k: int|
            0 <= k < self.inverse_index@[self.digest_at(i)]@.len()
                && #[trigger] self.inverse_index@[self.digest_at(i)]@[k] == i
    }

    /// The reverse index agrees with the stored values: every position is
    /// filed under the digest of its value, and nothing else is filed.
    pub closed spec fn wf(&self) -> bool {
        &&& forall|h: u64| #[trigger]
            self.inverse_index@.contains_key(h) ==> self.bucket_ok(h, self.inverse_index@[h]@)
        &&& forall|i: int| 0 <= i < self.index@.len() ==> #[trigger] self.filed(i)
    }

    /// The ids fit the machine's word.
    pub proof fn lemma_len_bounded(&self)
        ensures
            self@.len() <= usize::MAX,
    {
        assert(self.index.len() == self.index@.len());
    }

    /// Appends `value` and returns its id, the number of values pushed
    /// before it. The value is appended whether or not the list holds an
    /// equal one already; the caller looks it up first where that matters.
    pub fn push(&mut self, value: T) -> (idx: usize)
        requires
            old(self).wf(),
        ensures
            final(self).wf(),
            idx == old(self)@.len(),
            final(self)@ == old(self)@.push(value@),
    {
        let idx = self.index.len();
        let h = value.digest();
        let ghost before = *self;
        let mut bucket = match self.inverse_index.remove(&h) {
            Some(bucket) => bucket,
            None => Vec::new(),
        };
        let ghost filed = bucket@;
        bucket.push(idx);
        self.index.push(value);
        self.inverse_index.insert(h, bucket);
        proof {
            assert(self@ =~= before@.push(value@));
            assert(before.inverse_index@.contains_key(h) ==> filed == before.inverse_index@[h]@);
            assert forall|i: int| 0 <= i < self.index@.len() implies self.digest_at(i) == (if i
                < idx {
                before.digest_at(i)
            } else {
                h
            }) by {}
            assert forall|g: u64| #[trigger]
                self.inverse_index@.contains_key(g) implies self.bucket_ok(
                g,
                self.inverse_index@[g]@,
            ) by {
                if g == h {
                    let b = self.inverse_index@[g]@;
                    assert(b == filed.push(idx));
                    if before.inverse_index@.contains_key(h) {
                        assert(before.bucket_ok(h, filed));
                    }
                    assert forall|j: int| 0 <= j < b.len() implies (#[trigger] b[j])
                        < self.index@.len() && self.digest_at(b[j] as int) == g by {
                        if j < filed.len() {
                            assert(filed[j] < idx);
                        }
                    }
                } else {
                    assert(before.inverse_index@.contains_key(g));
                    assert(before.bucket_ok(g, before.inverse_index@[g]@));
                }
            }
            assert forall|i: int| 0 <= i < self.index@.len() implies #[trigger] self.filed(i) by {
                let g = self.digest_at(i);
                if i < idx {
                    assert(g == before.digest_at(i));
                    let k = before.lemma_filed(i);
                    if g == h {
                        assert(self.inverse_index@[g]@ == filed.push(idx));
                        assert(self.inverse_index@[g]@[k] == i);
                    } else {
                        assert(self.inverse_index@[g]@ == before.inverse_index@[g]@);
                        assert(self.inverse_index@[g]@[k] == i);
                    }
                } else {
                    assert(g == h);
                    assert(self.inverse_index@[g]@ == filed.push(idx));
                    assert(self.inverse_index@[g]@[filed.len() as int] == idx);
                }
            }
        }
        idx
    }

    /// The value with the id `idx`, if that many values were pushed.
    pub fn get(&self, idx: usize) -> (r: Option<&T>)
        ensures
            match r {
                Some(value) => idx < self@.len() && value@ == self@[idx as int],
                None => idx >= self@.len(),
            },
    {
        if idx < self.index.len() {
            Some(&self.index[idx])
        } else {
            None
        }
    }

    /// Where a position is filed: at some place in the bucket of its digest.
    proof fn lemma_filed(&self, i: int) -> (k: int)
        requires
            self.wf(),
            0 <= i < self.index@.len(),
        ensures
            self.inverse_index@.contains_key(self.digest_at(i)),
            0 <= k < self.inverse_index@[self.digest_at(i)]@.len(),
            self.inverse_index@[self.digest_at(i)]@[k] == i,
    {
        assert(self.filed(i));
        let bucket = self.inverse_index@[self.digest_at(i)]@;
        choose|k: int| 0 <= k < bucket.len() && #[trigger] bucket[k] == i
    }

    /// The id under which `value` was last pushed, if it was pushed at all.
    /// The list is left as it is.
    pub fn get_index(&self, value: &T) -> (r: Option<usize>)
        requires
            self.wf(),
        ensures
            match r {
                Some(idx) => last_position(self@, value@) == Some(idx as int),
                None => last_position(self@, value@) is None,
            },
    {
        let h = value.digest();
        proof {
            lemma_last_position(self@, value@);
        }
        match self.inverse_index.get(&h) {
            None => {
                proof {
                    if self@.contains(value@) {
                        let i = choose|i: int| 0 <= i < self@.len() && self@[i] == value@;
                        assert(self.digest_at(i) == h);
                        let k = self.lemma_filed(i);
                    }
                }
                None
            },
            Some(bucket) => {
                assert(self.bucket_ok(h, bucket@));
                let mut j = bucket.len();
                while j > 0
                    invariant
                        self.wf(),
                        self.bucket_ok(h, bucket@),
                        self.inverse_index@.contains_key(h),
                        bucket@ == self.inverse_index@[h]@,
                        h == T::spec_digest(value@),
                        j <= bucket.len(),
                        forall|k: int|
                            j <= k < bucket.len() ==> self.index@[(#[trigger] bucket[k]) as int]@
                                != value@,
                    decreases j,
                {
                    j -= 1;
                    let idx = bucket[j];
                    if self.index[idx].same(value) {
                        proof {
                            assert forall|i: int| idx < i < self@.len() implies self@[i]
                                != value@ by {
                                if self@[i] == value@ {
                                    assert(self.digest_at(i) == h);
                                    let k = self.lemma_filed(i);
                                    if k < j {
                                        assert(bucket[k] < bucket[j as int]);
                                    }
                                    assert(k > j);
                                    assert(self.index@[bucket[k] as int]@ != value@);
                                }
                            }
                            lemma_last_position_is(self@, value@, idx as int);
                        }
                        return Some(idx);
                    }
                }
                proof {
                    lemma_last_position(self@, value@);
                    if self@.contains(value@) {
                        let i = choose|i: int| 0 <= i < self@.len() && self@[i] == value@;
                        assert(self.digest_at(i) == h);
                        let k = self.lemma_filed(i);
                        assert(self.index@[bucket[k] as int]@ != value@);
                    }
                }
                None
            },
        }
    }

    /// The number of values pushed so far.
    pub fn len(&self) -> (n: usize)
        ensures
            n == self@.len(),
    {
        self.index.len()
    }
}

impl<T: Indexable> Default for BidirectionalList<T> {
    /// A list that holds nothing.
    fn default() -> (list: Self)
        ensures
            list.wf(),
            list@ == Seq::<T::V>::empty(),
    {
        let list = BidirectionalList { index: Vec::new(), inverse_index: HashMap::new() };
        assert(list@ =~= Seq::<T::V>::empty());
        list
    }
}

} // verus!
