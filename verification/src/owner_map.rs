//! Owner-keyed ledger maps: claimable balances, pending amounts and active
//! node ids, each keyed by the owner's address.
//!
//! A map is a vector of entries with pairwise distinct keys; an owner
//! without an entry reads as the zero of the value type, matching a
//! key-value store read with a zero default.
use vstd::prelude::*;

verus! {

/// The first index whose key reads as `k`, or `-1` if there is none.
pub open spec fn find_key<V>(s: Seq<(String, V)>, k: Seq<char>) -> int
    decreases s.len(),
{
    if s.len() == 0 {
        -1
    } else if s[0].0@ == k {
        0
    } else {
        let r = find_key(s.drop_first(), k);
        if r < 0 {
            -1
        } else {
            r + 1
        }
    }
}

/// Pairwise distinct keys.
pub open spec fn keys_distinct<V>(s: Seq<(String, V)>) -> bool {
    forall|i: int, j: int| 0 <= i < j < s.len() ==> s[i].0@ != s[j].0@
}

/// The sum of all stored amounts.
pub open spec fn pair_sum(s: Seq<(String, u128)>) -> int
    decreases s.len(),
{
    if s.len() == 0 {
        0
    } else {
        s[0].1 + pair_sum(s.drop_first())
    }
}

pub proof fn lemma_find_key<V>(s: Seq<(String, V)>, k: Seq<char>)
    ensures
        find_key(s, k) >= 0 ==> {
            &&& find_key(s, k) < s.len()
            &&& s[find_key(s, k)].0@ == k
        },
        find_key(s, k) < 0 ==> forall|i: int| 0 <= i < s.len() ==> s[i].0@ != k,
    decreases s.len(),
{
    if s.len() > 0 && s[0].0@ != k {
        lemma_find_key(s.drop_first(), k);
        if find_key(s.drop_first(), k) < 0 {
            assert forall|i: int| 0 <= i < s.len() implies s[i].0@ != k by {
                if i > 0 {
                    assert(s.drop_first()[i - 1].0@ != k);
                }
            }
        }
    }
}

/// When everything before position `j` misses, the first hit is `j` itself.
pub proof fn lemma_find_key_at<V>(s: Seq<(String, V)>, k: Seq<char>, j: int)
    requires
        0 <= j < s.len(),
        s[j].0@ == k,
        forall|i: int| 0 <= i < j ==> s[i].0@ != k,
    ensures
        find_key(s, k) == j,
    decreases j,
{
    if j > 0 {
        assert forall|i: int| 0 <= i < j - 1 implies s.drop_first()[i].0@ != k by {
            assert(s[i + 1].0@ != k);
        }
        lemma_find_key_at(s.drop_first(), k, j - 1);
    }
}

pub proof fn lemma_pair_sum_push(s: Seq<(String, u128)>, p: (String, u128))
    ensures
        pair_sum(s.push(p)) == pair_sum(s) + p.1,
    decreases s.len(),
{
    assert(pair_sum(s.push(p)) == s.push(p)[0].1 + pair_sum(s.push(p).drop_first()));
    if s.len() == 0 {
        assert(s.push(p)[0] == p);
        assert(s.push(p).drop_first() =~= Seq::<(String, u128)>::empty());
    } else {
        assert(s.push(p)[0] == s[0]);
        assert(s.push(p).drop_first() =~= s.drop_first().push(p));
        lemma_pair_sum_push(s.drop_first(), p);
    }
}

pub proof fn lemma_pair_sum_remove(s: Seq<(String, u128)>, i: int)
    requires
        0 <= i < s.len(),
    ensures
        pair_sum(s.remove(i)) == pair_sum(s) - s[i].1,
    decreases s.len(),
{
    if i == 0 {
        assert(s.remove(0) =~= s.drop_first());
    } else {
        assert(s.remove(i).drop_first() =~= s.drop_first().remove(i - 1));
        lemma_pair_sum_remove(s.drop_first(), i - 1);
    }
}

pub proof fn lemma_pair_sum_bounds(s: Seq<(String, u128)>)
    ensures
        pair_sum(s) >= 0,
        forall|i: int| 0 <= i < s.len() ==> #[trigger] s[i].1 <= pair_sum(s),
    decreases s.len(),
{
    if s.len() > 0 {
        lemma_pair_sum_bounds(s.drop_first());
        assert forall|i: int| 0 <= i < s.len() implies #[trigger] s[i].1 <= pair_sum(s) by {
            if i > 0 {
                assert(s.drop_first()[i - 1] == s[i]);
            }
        }
    }
}

/// A map from owner to an amount of value; an absent owner reads as `0`.
pub struct AmountMap {
    entries: Vec<(String, u128)>,
}

impl AmountMap {
    /// The entries as stored.
    pub closed spec fn entries_view(self) -> Seq<(String, u128)> {
        self.entries@
    }

    /// Keys are pairwise distinct.
    pub open spec fn wf(self) -> bool {
        keys_distinct(self.entries_view())
    }

    /// The amount stored for `owner`, or `0` if there is no entry.
    pub open spec fn spec_get(self, owner: Seq<char>) -> u128 {
        let i = find_key(self.entries_view(), owner);
        if i >= 0 {
            self.entries_view()[i].1
        } else {
            0
        }
    }

    /// The sum of all stored amounts.
    pub open spec fn total(self) -> int {
        pair_sum(self.entries_view())
    }

    /// An empty map: every owner reads as `0`.
    pub fn new() -> (m: AmountMap)
        ensures
            m.wf(),
            m.total() == 0,
            forall|o: Seq<char>| m.spec_get(o) == 0,
    {
        AmountMap { entries: Vec::new() }
    }

    /// No single owner holds more than the sum of all entries.
    pub proof fn lemma_get_le_total(self, owner: Seq<char>)
        requires
            self.wf(),
        ensures
            self.total() >= 0,
            self.spec_get(owner) <= self.total(),
    {
        lemma_pair_sum_bounds(self.entries_view());
        lemma_find_key(self.entries_view(), owner);
    }

    /// The amount stored for `owner`.
    pub fn get(&self, owner: &String) -> (r: u128)
        requires
            self.wf(),
        ensures
            r == self.spec_get(owner@),
    {
        let ghost s = self.entries_view();
        let n = self.entries.len();
        let mut i: usize = 0;
        while i < n
            invariant
                0 <= i <= n,
                forall|j: int| 0 <= j < i ==> s[j].0@ != owner@,
            decreases n - i,
        {
            if self.entries[i].0 == *owner {
                proof {
                    lemma_find_key_at(s, owner@, i as int);
                }
                return self.entries[i].1;
            }
            i = i + 1;
        }
        proof {
            lemma_find_key(s, owner@);
            if find_key(s, owner@) >= 0 {
                assert(false);
            }
        }
        0
    }

    /// Stores `v` for `owner`, replacing any earlier entry. Every other
    /// owner's amount is untouched, and the total moves by the difference.
    pub fn set(&mut self, owner: &String, v: u128)
        requires
            old(self).wf(),
        ensures
            final(self).wf(),
            final(self).spec_get(owner@) == v,
            forall|o: Seq<char>|
                o != owner@ ==> #[trigger] final(self).spec_get(o) == old(self).spec_get(o),
            final(self).total() == old(self).total() - old(self).spec_get(owner@) + v,
    {
        let ghost s0 = self.entries_view();
        let n = self.entries.len();
        let mut i: usize = 0;
        let mut found = false;
        while i < n && !found
            invariant
                0 <= i <= n,
                !found ==> forall|j: int| 0 <= j < i ==> s0[j].0@ != owner@,
                found ==> i < n && s0[i as int].0@ == owner@ && forall|j: int|
                    0 <= j < i ==> s0[j].0@ != owner@,
                self.entries@ == s0,
            decreases n - i + (if found {
                0int
            } else {
                1int
            }),
        {
            if self.entries[i].0 == *owner {
                found = true;
            } else {
                i = i + 1;
            }
        }
        if found {
            proof {
                lemma_find_key_at(s0, owner@, i as int);
                lemma_pair_sum_remove(s0, i as int);
            }
            self.entries.remove(i);
        } else {
            proof {
                lemma_find_key(s0, owner@);
                if find_key(s0, owner@) >= 0 {
                    assert(false);
                }
            }
        }
        let ghost s1 = self.entries@;
        proof {
            if found {
                assert(s1.len() == s0.len() - 1);
                assert forall|j: int| 0 <= j < i implies #[trigger] s1[j] == s0[j] by {
                    assert(s0.remove(i as int)[j] == s0[j]);
                }
                assert forall|j: int| i <= j < s1.len() implies #[trigger] s1[j] == s0[j + 1] by {
                    assert(s0.remove(i as int)[j] == s0[j + 1]);
                }
                assert forall|a: int, b: int| 0 <= a < b < s1.len() implies s1[a].0@
                    != s1[b].0@ by {
                    if b < i {
                    } else if a >= i {
                        assert(s1[a] == s0[a + 1] && s1[b] == s0[b + 1]);
                    } else {
                        assert(s1[a] == s0[a] && s1[b] == s0[b + 1]);
                    }
                }
                assert forall|j: int| 0 <= j < s1.len() implies s1[j].0@ != owner@ by {
                    if j < i {
                    } else {
                        assert(s1[j] == s0[j + 1]);
                    }
                }
            }
        }
        let owner_copy = owner.clone();
        let ghost pushed = (owner_copy, v);
        self.entries.push((owner_copy, v));
        proof {
            let s2 = self.entries@;
            assert(s2 == s1.push(pushed));
            assert(pushed.0@ == owner@);
            lemma_pair_sum_push(s1, pushed);
            assert forall|a: int, b: int| 0 <= a < b < s2.len() implies s2[a].0@ != s2[b].0@ by {
                if b < s2.len() - 1 {
                    assert(s2[a] == s1[a] && s2[b] == s1[b]);
                } else {
                    assert(s2[b].0@ == owner@);
                    assert(s2[a] == s1[a]);
                }
            }
            assert(self.wf());
            lemma_find_key_at(s2, owner@, s2.len() - 1);
            assert(self.spec_get(owner@) == v);
            assert(self.total() == pair_sum(s0) - (if find_key(s0, owner@) >= 0 {
                s0[find_key(s0, owner@)].1
            } else {
                0u128
            }) + v);
            assert forall|o: Seq<char>| o != owner@ implies #[trigger] self.spec_get(o)
                == pair_map_get(s0, o) by {
                lemma_find_key(s2, o);
                lemma_find_key(s0, o);
                let i2 = find_key(s2, o);
                let i0 = find_key(s0, o);
                if i0 >= 0 {
                    assert(s0[i0].0@ == o);
                    if found && i0 == i {
                        assert(false);
                    }
                    // the old entry survives in the new sequence
                    let j2: int = if found && i0 > i {
                        i0 - 1
                    } else {
                        i0
                    };
                    assert(s2[j2] == s0[i0]);
                    if i2 < 0 {
                        assert(s2[j2].0@ != o);
                        assert(false);
                    }
                    assert(s2[i2].0@ == o);
                    if i2 < s2.len() - 1 {
                        // the hit is an old entry: map it back
                        let back: int = if found && i2 >= i {
                            i2 + 1
                        } else {
                            i2
                        };
                        assert(s2[i2] == s1[i2]);
                        assert(s1[i2] == s0[back]);
                        assert(s0[back].0@ == o);
                        if back != i0 {
                            if back < i0 {
                                assert(s0[back].0@ != s0[i0].0@);
                            } else {
                                assert(s0[i0].0@ != s0[back].0@);
                            }
                            assert(false);
                        }
                        assert(self.spec_get(o) == s0[i0].1);
                    } else {
                        assert(s2[i2].0@ == owner@);
                        assert(false);
                    }
                } else {
                    if i2 >= 0 {
                        assert(s2[i2].0@ == o);
                        if i2 < s2.len() - 1 {
                            let back: int = if found && i2 >= i {
                                i2 + 1
                            } else {
                                i2
                            };
                            assert(s2[i2] == s1[i2]);
                            assert(s1[i2] == s0[back]);
                            assert(s0[back].0@ != o);
                            assert(false);
                        } else {
                            assert(s2[i2].0@ == owner@);
                            assert(false);
                        }
                    }
                }
            }
        }
    }
}

impl Clone for AmountMap {
    fn clone(&self) -> (r: Self)
        ensures
            r.entries_view() == self.entries_view(),
    {
        let n = self.entries.len();
        let mut entries: Vec<(String, u128)> = Vec::new();
        let mut i: usize = 0;
        while i < n
            invariant
                0 <= i <= n,
                entries@.len() == i,
                forall|j: int| 0 <= j < i ==> entries@[j] == self.entries@[j],
            decreases n - i,
        {
            entries.push((self.entries[i].0.clone(), self.entries[i].1));
            i = i + 1;
        }
        proof {
            assert(entries@ =~= self.entries@);
        }
        AmountMap { entries }
    }
}

/// What `spec_get` reads from a raw entry sequence; used to relate a map
/// before and after an update.
pub open spec fn pair_map_get(s: Seq<(String, u128)>, o: Seq<char>) -> u128 {
    let i = find_key(s, o);
    if i >= 0 {
        s[i].1
    } else {
        0
    }
}


/// A map from owner to the id of their active queue node; an absent owner
/// reads as `0`, the sentinel for "no active position".
pub struct IdMap {
    entries: Vec<(String, u64)>,
}

impl IdMap {
    /// The entries as stored.
    pub closed spec fn entries_view(self) -> Seq<(String, u64)> {
        self.entries@
    }

    /// Keys are pairwise distinct.
    pub open spec fn wf(self) -> bool {
        keys_distinct(self.entries_view())
    }

    /// The id stored for `owner`, or `0` if there is no entry.
    pub open spec fn spec_get(self, owner: Seq<char>) -> u64 {
        let i = find_key(self.entries_view(), owner);
        if i >= 0 {
            self.entries_view()[i].1
        } else {
            0
        }
    }

    /// An empty map: every owner reads as `0`.
    pub fn new() -> (m: IdMap)
        ensures
            m.wf(),
            forall|o: Seq<char>| m.spec_get(o) == 0,
    {
        IdMap { entries: Vec::new() }
    }

    /// The id stored for `owner`.
    pub fn get(&self, owner: &String) -> (r: u64)
        requires
            self.wf(),
        ensures
            r == self.spec_get(owner@),
    {
        let ghost s = self.entries_view();
        let n = self.entries.len();
        let mut i: usize = 0;
        while i < n
            invariant
                0 <= i <= n,
                forall|j: int| 0 <= j < i ==> s[j].0@ != owner@,
            decreases n - i,
        {
            if self.entries[i].0 == *owner {
                proof {
                    lemma_find_key_at(s, owner@, i as int);
                }
                return self.entries[i].1;
            }
            i = i + 1;
        }
        proof {
            lemma_find_key(s, owner@);
            if find_key(s, owner@) >= 0 {
                assert(false);
            }
        }
        0
    }

    /// Stores `v` for `owner`, replacing any earlier entry. Every other
    /// owner's id is untouched.
    pub fn set(&mut self, owner: &String, v: u64)
        requires
            old(self).wf(),
        ensures
            final(self).wf(),
            final(self).spec_get(owner@) == v,
            forall|o: Seq<char>|
                o != owner@ ==> #[trigger] final(self).spec_get(o) == old(self).spec_get(o),
    {
        let ghost s0 = self.entries_view();
        let n = self.entries.len();
        let mut i: usize = 0;
        let mut found = false;
        while i < n && !found
            invariant
                0 <= i <= n,
                !found ==> forall|j: int| 0 <= j < i ==> s0[j].0@ != owner@,
                found ==> i < n && s0[i as int].0@ == owner@ && forall|j: int|
                    0 <= j < i ==> s0[j].0@ != owner@,
                self.entries@ == s0,
            decreases n - i + (if found {
                0int
            } else {
                1int
            }),
        {
            if self.entries[i].0 == *owner {
                found = true;
            } else {
                i = i + 1;
            }
        }
        if found {
            proof {
                lemma_find_key_at(s0, owner@, i as int);
            }
            self.entries.remove(i);
        } else {
            proof {
                lemma_find_key(s0, owner@);
                if find_key(s0, owner@) >= 0 {
                    assert(false);
                }
            }
        }
        let ghost s1 = self.entries@;
        proof {
            if found {
                assert(s1.len() == s0.len() - 1);
                assert forall|j: int| 0 <= j < i implies #[trigger] s1[j] == s0[j] by {
                    assert(s0.remove(i as int)[j] == s0[j]);
                }
                assert forall|j: int| i <= j < s1.len() implies #[trigger] s1[j] == s0[j + 1] by {
                    assert(s0.remove(i as int)[j] == s0[j + 1]);
                }
                assert forall|a: int, b: int| 0 <= a < b < s1.len() implies s1[a].0@
                    != s1[b].0@ by {
                    if b < i {
                    } else if a >= i {
                        assert(s1[a] == s0[a + 1] && s1[b] == s0[b + 1]);
                    } else {
                        assert(s1[a] == s0[a] && s1[b] == s0[b + 1]);
                    }
                }
                assert forall|j: int| 0 <= j < s1.len() implies s1[j].0@ != owner@ by {
                    if j < i {
                    } else {
                        assert(s1[j] == s0[j + 1]);
                    }
                }
            }
        }
        let owner_copy = owner.clone();
        let ghost pushed = (owner_copy, v);
        self.entries.push((owner_copy, v));
        proof {
            let s2 = self.entries@;
            assert(s2 == s1.push(pushed));
            assert(pushed.0@ == owner@);
            assert forall|a: int, b: int| 0 <= a < b < s2.len() implies s2[a].0@ != s2[b].0@ by {
                if b < s2.len() - 1 {
                    assert(s2[a] == s1[a] && s2[b] == s1[b]);
                } else {
                    assert(s2[b].0@ == owner@);
                    assert(s2[a] == s1[a]);
                }
            }
            assert(self.wf());
            lemma_find_key_at(s2, owner@, s2.len() - 1);
            assert(self.spec_get(owner@) == v);
            assert forall|o: Seq<char>| o != owner@ implies #[trigger] self.spec_get(o) == (if
                find_key(s0, o) >= 0 {
                s0[find_key(s0, o)].1
            } else {
                0u64
            }) by {
                lemma_find_key(s2, o);
                lemma_find_key(s0, o);
                let i2 = find_key(s2, o);
                let i0 = find_key(s0, o);
                if i0 >= 0 {
                    assert(s0[i0].0@ == o);
                    if found && i0 == i {
                        assert(false);
                    }
                    let j2: int = if found && i0 > i {
                        i0 - 1
                    } else {
                        i0
                    };
                    assert(s2[j2] == s0[i0]);
                    if i2 < 0 {
                        assert(s2[j2].0@ != o);
                        assert(false);
                    }
                    assert(s2[i2].0@ == o);
                    if i2 < s2.len() - 1 {
                        let back: int = if found && i2 >= i {
                            i2 + 1
                        } else {
                            i2
                        };
                        assert(s2[i2] == s1[i2]);
                        assert(s1[i2] == s0[back]);
                        assert(s0[back].0@ == o);
                        if back != i0 {
                            if back < i0 {
                                assert(s0[back].0@ != s0[i0].0@);
                            } else {
                                assert(s0[i0].0@ != s0[back].0@);
                            }
                            assert(false);
                        }
                        assert(self.spec_get(o) == s0[i0].1);
                    } else {
                        assert(s2[i2].0@ == owner@);
                        assert(false);
                    }
                } else {
                    if i2 >= 0 {
                        assert(s2[i2].0@ == o);
                        if i2 < s2.len() - 1 {
                            let back: int = if found && i2 >= i {
                                i2 + 1
                            } else {
                                i2
                            };
                            assert(s2[i2] == s1[i2]);
                            assert(s1[i2] == s0[back]);
                            assert(s0[back].0@ != o);
                            assert(false);
                        } else {
                            assert(s2[i2].0@ == owner@);
                            assert(false);
                        }
                    }
                }
            }
        }
    }
}


impl Clone for IdMap {
    fn clone(&self) -> (r: Self)
        ensures
            r.entries_view() == self.entries_view(),
    {
        let n = self.entries.len();
        let mut entries: Vec<(String, u64)> = Vec::new();
        let mut i: usize = 0;
        while i < n
            invariant
                0 <= i <= n,
                entries@.len() == i,
                forall|j: int| 0 <= j < i ==> entries@[j] == self.entries@[j],
            decreases n - i,
        {
            entries.push((self.entries[i].0.clone(), self.entries[i].1));
            i = i + 1;
        }
        proof {
            assert(entries@ =~= self.entries@);
        }
        IdMap { entries }
    }
}

} // verus!
