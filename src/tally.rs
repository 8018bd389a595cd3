use vstd::prelude::*;

verus! {

/// How often a key was counted, where an absent key counts zero.
pub open spec fn count_in(m: Map<Seq<char>, nat>, k: Seq<char>) -> nat {
    if m.contains_key(k) {
        m[k]
    } else {
        0
    }
}

/// Every key that is present was counted at least once.
pub open spec fn positive(m: Map<Seq<char>, nat>) -> bool {
    forall|k: Seq<char>| #[trigger] m.contains_key(k) ==> m[k] >= 1
}

pub open spec fn tally_map(s: Seq<(String, u32)>) -> Map<Seq<char>, nat>
    decreases s.len(),
{
    if s.len() == 0 {
        Map::empty()
    } else {
        tally_map(s.drop_last()).insert(s.last().0@, s.last().1 as nat)
    }
}

pub open spec fn unique_keys(s: Seq<(String, u32)>) -> bool {
    forall|i: int, j: int| 0 <= i < s.len() && 0 <= j < s.len() && i != j ==> s[i].0@ != s[j].0@
}

proof fn lemma_lookup(s: Seq<(String, u32)>, i: int)
    requires
        unique_keys(s),
        0 <= i < s.len(),
    ensures
        tally_map(s).contains_key(s[i].0@),
        tally_map(s)[s[i].0@] == s[i].1 as nat,
    decreases s.len(),
{
    if i < s.len() - 1 {
        lemma_lookup(s.drop_last(), i);
        assert(s[s.len() - 1].0@ != s[i].0@);
    }
}

proof fn lemma_absent(s: Seq<(String, u32)>, k: Seq<char>)
    requires
        forall|i: int| 0 <= i < s.len() ==> s[i].0@ != k,
    ensures
        !tally_map(s).contains_key(k),
    decreases s.len(),
{
    if s.len() > 0 {
        lemma_absent(s.drop_last(), k);
    }
}

proof fn lemma_present(s: Seq<(String, u32)>, k: Seq<char>)
    requires
        tally_map(s).contains_key(k),
    ensures
        exists|i: int| 0 <= i < s.len() && s[i].0@ == k && tally_map(s)[k] == s[i].1 as nat,
    decreases s.len(),
{
    if s.last().0@ != k {
        lemma_present(s.drop_last(), k);
        let i = choose|i: int|
            0 <= i < s.len() - 1 && s.drop_last()[i].0@ == k && tally_map(s.drop_last())[k]
                == s.drop_last()[i].1 as nat;
        assert(s[i] == s.drop_last()[i]);
    } else {
        assert(s[s.len() - 1].0@ == k);
    }
}

proof fn lemma_update(s: Seq<(String, u32)>, i: int, v: u32)
    requires
        unique_keys(s),
        0 <= i < s.len(),
    ensures
        tally_map(s.update(i, (s[i].0, v))) == tally_map(s).insert(s[i].0@, v as nat),
    decreases s.len(),
{
    let t = s.update(i, (s[i].0, v));
    if i == s.len() - 1 {
        assert(t.drop_last() =~= s.drop_last());
        assert(tally_map(t) =~= tally_map(s).insert(s[i].0@, v as nat));
    } else {
        lemma_update(s.drop_last(), i, v);
        assert(t.drop_last() =~= s.drop_last().update(i, (s[i].0, v)));
        assert(s[s.len() - 1].0@ != s[i].0@);
        assert(tally_map(t) =~= tally_map(s).insert(s[i].0@, v as nat));
    }
}

/// Counts per text key, kept in order of first appearance.
///
/// A `Vec` of unique keys rather than a `HashMap<String, u32>`: vstd gives
/// `String` no hash-table key model, so nothing about `insert` or `get` on such
/// a map could be proved. A lookup scans the keys, which is linear in the
/// number of distinct methods or players.
#[derive(Debug, Clone)]
pub struct Tally {
    entries: Vec<(String, u32)>,
}

impl View for Tally {
    type V = Map<Seq<char>, nat>;

    closed spec fn view(&self) -> Map<Seq<char>, nat> {
        tally_map(self.entries@)
    }
}

impl Tally {
    pub closed spec fn wf(&self) -> bool {
        &&& unique_keys(self.entries@)
        &&& forall|i: int| 0 <= i < self.entries@.len() ==> self.entries@[i].1 >= 1
    }

    pub proof fn lemma_positive(&self)
        requires
            self.wf(),
        ensures
            positive(self@),
    {
        assert forall|k: Seq<char>| #[trigger] self@.contains_key(k) implies self@[k] >= 1 by {
            lemma_present(self.entries@, k);
        }
    }

    pub fn new() -> (r: Tally)
        ensures
            r.wf(),
            r@ == Map::<Seq<char>, nat>::empty(),
    {
        Tally { entries: Vec::new() }
    }

    fn find(&self, key: &String) -> (r: Option<usize>)
        requires
            self.wf(),
        ensures
            match r {
                Some(i) => i < self.entries@.len() && self.entries@[i as int].0@ == key@,
                None => forall|i: int| 0 <= i < self.entries@.len() ==> self.entries@[i].0@ != key@,
            },
    {
        let mut i: usize = 0;
        while i < self.entries.len()
            invariant
                i <= self.entries@.len(),
                forall|j: int| 0 <= j < i ==> self.entries@[j].0@ != key@,
            decreases self.entries.len() - i,
        {
            if self.entries[i].0 == *key {
                return Some(i);
            }
            i = i + 1;
        }
        None
    }

    /// The count of `key`, or `None` where it was never counted.
    pub fn get(&self, key: &str) -> (r: Option<&u32>)
        requires
            self.wf(),
        ensures
            match r {
                Some(v) => self@.contains_key(key@) && self@[key@] == *v as nat,
                None => !self@.contains_key(key@),
            },
    {
        let k = key.to_owned();
        match self.find(&k) {
            Some(i) => {
                proof {
                    lemma_lookup(self.entries@, i as int);
                }
                Some(&self.entries[i].1)
            },
            None => {
                proof {
                    lemma_absent(self.entries@, key@);
                }
                None
            },
        }
    }

    pub fn is_empty(&self) -> (r: bool)
        ensures
            r == (self@ == Map::<Seq<char>, nat>::empty()),
    {
        if self.entries.len() == 0 {
            assert(self@ =~= Map::<Seq<char>, nat>::empty());
            true
        } else {
            let ghost s = self.entries@;
            assert(self@.contains_key(s.last().0@));
            false
        }
    }

    /// Adds `n` to the count of `key`.
    pub fn add(&mut self, key: &String, n: u32)
        requires
            old(self).wf(),
            n >= 1,
            count_in(old(self)@, key@) + n <= u32::MAX,
        ensures
            final(self).wf(),
            final(self)@ == old(self)@.insert(key@, (count_in(old(self)@, key@) + n) as nat),
    {
        match self.find(key) {
            Some(i) => {
                proof {
                    lemma_lookup(self.entries@, i as int);
                    lemma_update(self.entries@, i as int, (self.entries@[i as int].1 + n) as u32);
                }
                let c = self.entries[i].1;
                let k = self.entries[i].0.clone();
                self.entries.set(i, (k, c + n));
            },
            None => {
                proof {
                    lemma_absent(self.entries@, key@);
                }
                self.entries.push((key.clone(), n));
                assert(self.entries@.drop_last() =~= old(self).entries@);
            },
        }
    }

    /// Adds every count of `other` to this one, key by key.
    pub fn add_all(&mut self, other: &Tally)
        requires
            old(self).wf(),
            other.wf(),
            forall|k: Seq<char>| count_in(old(self)@, k) + count_in(other@, k) <= u32::MAX,
        ensures
            final(self).wf(),
            forall|k: Seq<char>| #[trigger]
                count_in(final(self)@, k) == count_in(old(self)@, k) + count_in(other@, k),
    {
        let ghost s = other.entries@;
        let mut i: usize = 0;
        while i < other.entries.len()
            invariant
                s == other.entries@,
                other.wf(),
                self.wf(),
                i <= s.len(),
                forall|k: Seq<char>| count_in(old(self)@, k) + count_in(other@, k) <= u32::MAX,
                forall|k: Seq<char>| #[trigger]
                    count_in(self@, k) == count_in(old(self)@, k) + count_in(
                        tally_map(s.subrange(0, i as int)),
                        k,
                    ),
            decreases s.len() - i,
        {
            let ghost pre = s.subrange(0, i as int);
            let ghost nxt = s.subrange(0, i + 1);
            assert(nxt.drop_last() =~= pre);
            assert(nxt.last() == s[i as int]);
            let ghost key = s[i as int].0@;
            proof {
                assert forall|j: int| 0 <= j < pre.len() implies pre[j].0@ != key by {
                    assert(pre[j] == s[j]);
                }
                lemma_absent(pre, key);
                lemma_lookup(s, i as int);
                assert(count_in(self@, key) == count_in(old(self)@, key) + count_in(
                    tally_map(pre),
                    key,
                ));
                assert(count_in(old(self)@, key) + count_in(other@, key) <= u32::MAX);
            }
            let k = &other.entries[i].0;
            let n = other.entries[i].1;
            let ghost mid = self@;
            self.add(k, n);
            assert(tally_map(nxt) == tally_map(pre).insert(key, n as nat));
            assert forall|k2: Seq<char>| #[trigger]
                count_in(self@, k2) == count_in(old(self)@, k2) + count_in(tally_map(nxt), k2) by {
                if k2 != key {
                    assert(count_in(mid, k2) == count_in(old(self)@, k2) + count_in(
                        tally_map(pre),
                        k2,
                    ));
                }
            }
            i = i + 1;
        }
        assert(s.subrange(0, s.len() as int) =~= s);
    }

    /// The keys with their counts, in order of first appearance.
    pub fn to_vec(&self) -> (r: Vec<(String, u32)>)
        requires
            self.wf(),
        ensures
            unique_keys(r@),
            forall|i: int|
                0 <= i < r@.len() ==> self@.contains_key(#[trigger] r@[i].0@) && self@[r@[i].0@]
                    == r@[i].1 as nat,
            forall|k: Seq<char>| #[trigger]
                self@.contains_key(k) ==> exists|i: int| 0 <= i < r@.len() && r@[i].0@ == k,
    {
        let mut r: Vec<(String, u32)> = Vec::new();
        let mut i: usize = 0;
        while i < self.entries.len()
            invariant
                i <= self.entries@.len(),
                r@ == self.entries@.subrange(0, i as int),
            decreases self.entries.len() - i,
        {
            r.push((self.entries[i].0.clone(), self.entries[i].1));
            i = i + 1;
            assert(r@ =~= self.entries@.subrange(0, i as int));
        }
        assert(r@ =~= self.entries@);
        assert forall|i: int| 0 <= i < r@.len() implies self@.contains_key(
            #[trigger] r@[i].0@,
        ) && self@[r@[i].0@] == r@[i].1 as nat by {
            lemma_lookup(self.entries@, i);
        }
        assert forall|k: Seq<char>| #[trigger] self@.contains_key(k) implies exists|i: int|
            0 <= i < r@.len() && r@[i].0@ == k by {
            lemma_present(self.entries@, k);
        }
        r
    }
}

} // verus!
