//! Small association maps from file names (UCS-2 code units) to handles,
//! used for a directory's loaded children.

use vstd::prelude::*;

verus! {

/// Compare two unit strings.
pub fn units_eq(a: &Vec<u16>, b: &Vec<u16>) -> (r: bool)
    ensures
        r == (a@ == b@),
{
    if a.len() != b.len() {
        return false;
    }
    let mut k: usize = 0;
    while k < a.len()
        invariant
            a@.len() == b@.len(),
            k <= a@.len(),
            forall|i: int| 0 <= i < k ==> a@[i] == b@[i],
        decreases a@.len() - k,
    {
        if a[k] != b[k] {
            return false;
        }
        k += 1;
    }
    proof {
        assert(a@ =~= b@);
    }
    true
}

/// Whether `p` is a prefix of `u`.
pub open spec fn spec_starts_with(u: Seq<u16>, p: Seq<u16>) -> bool {
    p.len() <= u.len() && u.take(p.len() as int) == p
}

pub fn units_start_with(u: &Vec<u16>, p: &Vec<u16>) -> (r: bool)
    ensures
        r == spec_starts_with(u@, p@),
{
    if p.len() > u.len() {
        return false;
    }
    let mut k: usize = 0;
    while k < p.len()
        invariant
            p@.len() <= u@.len(),
            k <= p@.len(),
            forall|i: int| 0 <= i < k ==> u@[i] == p@[i],
        decreases p@.len() - k,
    {
        if u[k] != p[k] {
            proof {
                if spec_starts_with(u@, p@) {
                    assert(u@.take(p@.len() as int)[k as int] == p@[k as int]);
                }
            }
            return false;
        }
        k += 1;
    }
    proof {
        assert(u@.take(p@.len() as int) =~= p@);
    }
    true
}

/// The map described by an association list; later pairs override earlier.
pub open spec fn as_map<T>(s: Seq<(Vec<u16>, T)>) -> Map<Seq<u16>, T>
    decreases s.len(),
{
    if s.len() == 0 {
        Map::empty()
    } else {
        as_map(s.drop_last()).insert(s.last().0@, s.last().1)
    }
}


/// How many listed names start with `p`.
pub open spec fn count_prefixed<T>(s: Seq<(Vec<u16>, T)>, p: Seq<u16>) -> int
    decreases s.len(),
{
    if s.len() == 0 {
        0
    } else {
        count_prefixed(s.drop_last(), p) + if spec_starts_with(s.last().0@, p) {
            1int
        } else {
            0int
        }
    }
}

/// A name-keyed map with distinct keys.
pub struct NameMap<T> {
    pub entries: Vec<(Vec<u16>, T)>,
}

impl<T: Copy> NameMap<T> {
    /// Keys are pairwise distinct.
    pub open spec fn wf(&self) -> bool {
        forall|i: int, j: int|
            0 <= i < j < self.entries@.len() ==> (#[trigger] self.entries@[i]).0@
                != (#[trigger] self.entries@[j]).0@
    }

    /// The map this list holds.
    pub open spec fn view_map(&self) -> Map<Seq<u16>, T> {
        as_map(self.entries@)
    }

    pub fn new() -> (r: NameMap<T>)
        ensures
            r.wf(),
            r.view_map() == Map::<Seq<u16>, T>::empty(),
            r.entries@.len() == 0,
    {
        NameMap { entries: Vec::new() }
    }

    pub fn len(&self) -> (r: usize)
        ensures
            r == self.entries@.len(),
    {
        self.entries.len()
    }


    /// Remove and return the last bound pair.
    pub fn pop_entry(&mut self) -> (r: Option<(Vec<u16>, T)>)
        requires
            old(self).wf(),
        ensures
            final(self).wf(),
            match r {
                Some(p) => {
                    &&& old(self).view_map().contains_key(p.0@)
                    &&& old(self).view_map()[p.0@] == p.1
                    &&& final(self).view_map() == old(self).view_map().remove(p.0@)
                    &&& final(self).entries@.len() == old(self).entries@.len() - 1
                },
                None => {
                    &&& old(self).entries@.len() == 0
                    &&& final(self).view_map() == old(self).view_map()
                    &&& final(self).entries@.len() == 0
                },
            },
    {
        let ghost s0 = self.entries@;
        match self.entries.pop() {
            Some(p) => {
                proof {
                    lemma_as_map_index(s0, s0.len() - 1);
                    assert forall|i: int|
                        0 <= i < self.entries@.len() implies (#[trigger] self.entries@[i]).0@
                        != s0.last().0@ by {
                        assert(self.entries@[i] == s0[i]);
                    }
                    lemma_as_map_missing(self.entries@, s0.last().0@);
                    assert(as_map(s0) == as_map(s0.drop_last()).insert(s0.last().0@,
                        s0.last().1));
                    assert(self.entries@ =~= s0.drop_last());
                    assert(as_map(self.entries@).remove(s0.last().0@) =~= as_map(
                        self.entries@));
                    assert(as_map(s0).remove(s0.last().0@) =~= as_map(self.entries@));
                }
                Some(p)
            }
            None => None,
        }
    }

    /// Count the names that start with `p`.
    pub fn count_with_prefix(&self, p: &Vec<u16>) -> (r: usize)
        ensures
            r == count_prefixed(self.entries@, p@),
    {
        let ghost s = self.entries@;
        let mut cnt: usize = 0;
        let mut k: usize = 0;
        while k < self.entries.len()
            invariant
                s == self.entries@,
                k <= s.len(),
                cnt <= k,
                cnt == count_prefixed(s.take(k as int), p@),
            decreases s.len() - k,
        {
            if units_start_with(&self.entries[k].0, p) {
                cnt += 1;
            }
            k += 1;
            proof {
                assert(s.take(k as int).drop_last() =~= s.take(k - 1));
                assert(s.take(k as int).last() == s[k - 1]);
            }
        }
        proof {
            assert(s.take(s.len() as int) =~= s);
        }
        cnt
    }

    /// Look a name up.
    pub fn get(&self, name: &Vec<u16>) -> (r: Option<T>)
        requires
            self.wf(),
        ensures
            match r {
                Some(v) => self.view_map().contains_key(name@) && self.view_map()[name@] == v,
                None => !self.view_map().contains_key(name@),
            },
    {
        let ghost s = self.entries@;
        let mut k: usize = 0;
        while k < self.entries.len()
            invariant
                self.wf(),
                s == self.entries@,
                k <= s.len(),
                forall|i: int| 0 <= i < k ==> (#[trigger] s[i]).0@ != name@,
            decreases s.len() - k,
        {
            if units_eq(&self.entries[k].0, name) {
                proof {
                    lemma_as_map_index(s, k as int);
                }
                return Some(self.entries[k].1);
            }
            k += 1;
        }
        proof {
            lemma_as_map_missing(s, name@);
        }
        None
    }

    /// Bind a name, replacing any present binding.
    pub fn insert(&mut self, name: Vec<u16>, v: T)
        requires
            old(self).wf(),
        ensures
            final(self).wf(),
            final(self).view_map() == old(self).view_map().insert(name@, v),
            final(self).entries@.len() <= old(self).entries@.len() + 1,
    {
        let ghost s0 = self.entries@;
        let mut k: usize = 0;
        while k < self.entries.len()
            invariant
                self.wf(),
                s0 == self.entries@,
                s0 == old(self).entries@,
                k <= s0.len(),
                forall|i: int| 0 <= i < k ==> (#[trigger] s0[i]).0@ != name@,
            decreases s0.len() - k,
        {
            if units_eq(&self.entries[k].0, &name) {
                self.entries[k] = (name, v);
                proof {
                    lemma_as_map_update(s0, self.entries@, k as int, v);
                }
                return;
            }
            k += 1;
        }
        self.entries.push((name, v));
        proof {
            assert(self.entries@.drop_last() =~= s0);
            lemma_as_map_missing(s0, self.entries@.last().0@);
        }
    }

    /// Drop a name's binding, handing back what was bound.
    pub fn remove(&mut self, name: &Vec<u16>) -> (r: Option<T>)
        requires
            old(self).wf(),
        ensures
            final(self).wf(),
            final(self).view_map() == old(self).view_map().remove(name@),
            match r {
                Some(v) => old(self).view_map().contains_key(name@)
                    && old(self).view_map()[name@] == v,
                None => !old(self).view_map().contains_key(name@),
            },
    {
        let ghost s0 = self.entries@;
        let mut k: usize = 0;
        while k < self.entries.len()
            invariant
                self.wf(),
                s0 == self.entries@,
                s0 == old(self).entries@,
                k <= s0.len(),
                forall|i: int| 0 <= i < k ==> (#[trigger] s0[i]).0@ != name@,
            decreases s0.len() - k,
        {
            if units_eq(&self.entries[k].0, name) {
                let v = self.entries[k].1;
                self.entries.remove(k);
                proof {
                    lemma_as_map_index(s0, k as int);
                    lemma_as_map_remove(s0, self.entries@, k as int);
                }
                return Some(v);
            }
            k += 1;
        }
        proof {
            lemma_as_map_missing(s0, name@);
            assert(self.view_map().remove(name@) =~= self.view_map());
        }
        None
    }
}

/// In a distinct-key list, the map binds each listed key to its pair's value.
pub proof fn lemma_as_map_index<T>(s: Seq<(Vec<u16>, T)>, k: int)
    requires
        0 <= k < s.len(),
        forall|i: int, j: int|
            0 <= i < j < s.len() ==> (#[trigger] s[i]).0@ != (#[trigger] s[j]).0@,
    ensures
        as_map(s).contains_key(s[k].0@),
        as_map(s)[s[k].0@] == s[k].1,
    decreases s.len(),
{
    if k == s.len() - 1 {
    } else {
        assert(s.drop_last()[k] == s[k]);
        lemma_as_map_index(s.drop_last(), k);
        assert(s.last().0@ != s[k].0@);
    }
}

/// A key listed nowhere is not in the map.
pub proof fn lemma_as_map_missing<T>(s: Seq<(Vec<u16>, T)>, key: Seq<u16>)
    requires
        forall|i: int| 0 <= i < s.len() ==> (#[trigger] s[i]).0@ != key,
    ensures
        !as_map(s).contains_key(key),
    decreases s.len(),
{
    if s.len() > 0 {
        lemma_as_map_missing(s.drop_last(), key);
    }
}

/// Every key in the map is listed.
pub proof fn lemma_as_map_covers<T>(s: Seq<(Vec<u16>, T)>, key: Seq<u16>)
    requires
        as_map(s).contains_key(key),
    ensures
        exists|i: int| 0 <= i < s.len() && (#[trigger] s[i]).0@ == key,
    decreases s.len(),
{
    if s.len() > 0 {
        if s.last().0@ == key {
            assert(s[s.len() - 1].0@ == key);
        } else {
            lemma_as_map_covers(s.drop_last(), key);
            let i = choose|i: int| 0 <= i < s.drop_last().len() && (#[trigger] s.drop_last()[
                i]).0@ == key;
            assert(s[i].0@ == key);
        }
    }
}

proof fn lemma_as_map_update<T>(s0: Seq<(Vec<u16>, T)>, s1: Seq<(Vec<u16>, T)>, k: int, v: T)
    requires
        0 <= k < s0.len(),
        s1.len() == s0.len(),
        (#[trigger] s1[k]).0@ == s0[k].0@,
        s1[k].1 == v,
        forall|i: int| 0 <= i < s0.len() && i != k ==> #[trigger] s1[i] == s0[i],
        forall|i: int, j: int|
            0 <= i < j < s0.len() ==> (#[trigger] s0[i]).0@ != (#[trigger] s0[j]).0@,
    ensures
        as_map(s1) == as_map(s0).insert(s0[k].0@, v),
        forall|i: int, j: int|
            0 <= i < j < s1.len() ==> (#[trigger] s1[i]).0@ != (#[trigger] s1[j]).0@,
    decreases s0.len(),
{
    if k == s0.len() - 1 {
        assert(s1.drop_last() =~= s0.drop_last());
        assert(as_map(s1) == as_map(s0.drop_last()).insert(s0[k].0@, v));
        assert(as_map(s0).insert(s0[k].0@, v) =~= as_map(s0.drop_last()).insert(s0[k].0@, v));
    } else {
        assert(s1.last() == s0.last());
        assert forall|i: int| 0 <= i < s0.drop_last().len() && i != k implies #[trigger] s1.drop_last()[i]
            == s0.drop_last()[i] by {
            assert(s1.drop_last()[i] == s1[i]);
            assert(s0.drop_last()[i] == s0[i]);
        }
        assert(s1.drop_last()[k].0@ == s0.drop_last()[k].0@);
        assert(s1.drop_last()[k].1 == v);
        lemma_as_map_update(s0.drop_last(), s1.drop_last(), k, v);
        assert(as_map(s1) == as_map(s0.drop_last()).insert(s0[k].0@, v).insert(s0.last().0@,
            s0.last().1));
        assert(s0[k].0@ != s0.last().0@);
        assert(as_map(s0.drop_last()).insert(s0[k].0@, v).insert(s0.last().0@, s0.last().1)
            =~= as_map(s0).insert(s0[k].0@, v));
    }
}

proof fn lemma_as_map_remove<T>(s0: Seq<(Vec<u16>, T)>, s1: Seq<(Vec<u16>, T)>, k: int)
    requires
        0 <= k < s0.len(),
        s1 == s0.remove(k),
        forall|i: int, j: int|
            0 <= i < j < s0.len() ==> (#[trigger] s0[i]).0@ != (#[trigger] s0[j]).0@,
    ensures
        as_map(s1) == as_map(s0).remove(s0[k].0@),
        forall|i: int, j: int|
            0 <= i < j < s1.len() ==> (#[trigger] s1[i]).0@ != (#[trigger] s1[j]).0@,
    decreases s0.len(),
{
    assert forall|i: int| 0 <= i < s1.len() implies #[trigger] s1[i] == (if i < k {
        s0[i]
    } else {
        s0[i + 1]
    }) by {}
    if k == s0.len() - 1 {
        assert(s1 =~= s0.drop_last());
        assert(as_map(s0) == as_map(s0.drop_last()).insert(s0[k].0@, s0[k].1));
        assert(!as_map(s0.drop_last()).contains_key(s0[k].0@)) by {
            assert forall|i: int| 0 <= i < s0.drop_last().len() implies (#[trigger] s0.drop_last()[
                i]).0@ != s0[k].0@ by {
                assert(s0.drop_last()[i] == s0[i]);
            }
            lemma_as_map_missing(s0.drop_last(), s0[k].0@);
        }
        assert(as_map(s1) =~= as_map(s0).remove(s0[k].0@));
    } else {
        assert(s1.drop_last() =~= s0.drop_last().remove(k));
        assert(s1.last() == s0.last());
        lemma_as_map_remove(s0.drop_last(), s1.drop_last(), k);
        assert(as_map(s1) == as_map(s0.drop_last()).remove(s0[k].0@).insert(s0.last().0@,
            s0.last().1));
        assert(s0[k].0@ != s0.last().0@);
        assert(as_map(s0.drop_last()).remove(s0[k].0@).insert(s0.last().0@, s0.last().1)
            =~= as_map(s0).remove(s0[k].0@));
    }
}


} // verus!
