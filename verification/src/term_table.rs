use vstd::prelude::*;

verus! {

/// Distinctness of the keys of an association sequence.
pub open spec fn keys_distinct<V>(s: Seq<(String, V)>) -> bool {
    forall|i: int, j: int| 0 <= i < j < s.len() ==> s[i].0@ != s[j].0@
}

/// The finite map denoted by an association sequence (later entries win;
/// well-formed tables never repeat a key, so the order is immaterial).
pub open spec fn table_map(s: Seq<(String, usize)>) -> Map<Seq<char>, nat>
    decreases s.len(),
{
    if s.len() == 0 {
        Map::empty()
    } else {
        table_map(s.drop_last()).insert(s.last().0@, s.last().1 as nat)
    }
}

/// The sum of all counts in an association sequence.
pub open spec fn table_sum(s: Seq<(String, usize)>) -> nat
    decreases s.len(),
{
    if s.len() == 0 {
        0
    } else {
        (table_sum(s.drop_last()) + s.last().1) as nat
    }
}

/// A table from terms to occurrence counts, stored as an association vector
/// with pairwise-distinct keys and viewed as a `Map<Seq<char>, nat>`.
pub struct TermTable {
    entries: Vec<(String, usize)>,
}

impl View for TermTable {
    type V = Map<Seq<char>, nat>;

    closed spec fn view(&self) -> Map<Seq<char>, nat> {
        table_map(self.entries@)
    }
}

proof fn lemma_table_map_contains(s: Seq<(String, usize)>, k: Seq<char>)
    ensures
        table_map(s).contains_key(k) <==> (exists|i: int| 0 <= i < s.len() && s[i].0@ == k),
    decreases s.len(),
{
    if s.len() > 0 {
        lemma_table_map_contains(s.drop_last(), k);
        if s.last().0@ == k {
            assert(s[s.len() - 1].0@ == k);
        } else {
            if exists|i: int| 0 <= i < s.drop_last().len() && s.drop_last()[i].0@ == k {
                let i = choose|i: int| 0 <= i < s.drop_last().len() && s.drop_last()[i].0@ == k;
                assert(s[i].0@ == k);
            }
            if exists|i: int| 0 <= i < s.len() && s[i].0@ == k {
                let i = choose|i: int| 0 <= i < s.len() && s[i].0@ == k;
                assert(i < s.len() - 1);
                assert(s.drop_last()[i].0@ == k);
            }
        }
    }
}

proof fn lemma_table_map_at(s: Seq<(String, usize)>, i: int)
    requires
        keys_distinct(s),
        0 <= i < s.len(),
    ensures
        table_map(s).contains_key(s[i].0@),
        table_map(s)[s[i].0@] == s[i].1 as nat,
    decreases s.len(),
{
    if i < s.len() - 1 {
        assert(keys_distinct(s.drop_last()));
        lemma_table_map_at(s.drop_last(), i);
        assert(s.drop_last()[i] == s[i]);
        assert(s[i].0@ != s.last().0@);
    }
}

proof fn lemma_table_map_push(s: Seq<(String, usize)>, p: (String, usize))
    ensures
        table_map(s.push(p)) == table_map(s).insert(p.0@, p.1 as nat),
        table_sum(s.push(p)) == table_sum(s) + p.1,
{
    assert(s.push(p).drop_last() =~= s);
    assert(s.push(p).last() == p);
}

proof fn lemma_table_map_remove(s: Seq<(String, usize)>, i: int)
    requires
        keys_distinct(s),
        0 <= i < s.len(),
    ensures
        table_map(s.remove(i)) == table_map(s).remove(s[i].0@),
        table_sum(s.remove(i)) + s[i].1 == table_sum(s),
        keys_distinct(s.remove(i)),
    decreases s.len(),
{
    assert forall|a: int, b: int| 0 <= a < b < s.remove(i).len() implies s.remove(i)[a].0@
        != s.remove(i)[b].0@ by {
        let a0: int = if a < i {
            a
        } else {
            a + 1
        };
        let b0: int = if b < i {
            b
        } else {
            b + 1
        };
        assert(s.remove(i)[a] == s[a0]);
        assert(s.remove(i)[b] == s[b0]);
    }
    if i == s.len() - 1 {
        assert(s.remove(i) =~= s.drop_last());
        lemma_table_map_contains(s.drop_last(), s[i].0@);
        assert(!table_map(s.drop_last()).contains_key(s[i].0@));
        assert(table_map(s.drop_last()).remove(s[i].0@) =~= table_map(s.drop_last()));
        assert(table_map(s).remove(s[i].0@) =~= table_map(s.drop_last()));
    } else {
        assert(keys_distinct(s.drop_last()));
        lemma_table_map_remove(s.drop_last(), i);
        assert(s.remove(i).drop_last() =~= s.drop_last().remove(i));
        assert(s.remove(i).last() == s.last());
        assert(s.remove(i).len() > 0);
        // table_map(s.remove(i)) == table_map(s.drop_last().remove(i)).insert(last)
        //                        == table_map(s.drop_last()).remove(s[i].0@).insert(last)
        assert(s[i].0@ != s.last().0@);
        assert(table_map(s.drop_last()).remove(s[i].0@).insert(s.last().0@, s.last().1 as nat)
            =~= table_map(s.drop_last()).insert(s.last().0@, s.last().1 as nat).remove(s[i].0@));
    }
}

proof fn lemma_table_entry_le_sum(s: Seq<(String, usize)>, i: int)
    requires
        0 <= i < s.len(),
    ensures
        s[i].1 <= table_sum(s),
    decreases s.len(),
{
    if i < s.len() - 1 {
        lemma_table_entry_le_sum(s.drop_last(), i);
        assert(s.drop_last()[i] == s[i]);
    }
}

impl TermTable {
    /// Keys are pairwise distinct, so the view loses no entry.
    pub closed spec fn wf(self) -> bool {
        keys_distinct(self.entries@)
    }

    /// The sum of all counts in the table.
    pub closed spec fn sum(self) -> nat {
        table_sum(self.entries@)
    }

    /// The keys of the table, in their storage order.
    pub closed spec fn keys(self) -> Seq<Seq<char>> {
        self.entries@.map_values(|p: (String, usize)| p.0@)
    }

    /// Relates the key sequence to the view: the keys are distinct, they are
    /// exactly the domain of the view, and there are as many as the domain has.
    pub proof fn lemma_keys(self)
        requires
            self.wf(),
        ensures
            self.keys().no_duplicates(),
            self.keys().len() == self@.dom().len(),
            self@.dom() == self.keys().to_set(),
            forall|i: int|
                0 <= i < self.keys().len() ==> #[trigger] self@.contains_key(self.keys()[i]),
    {
        assert forall|i: int, j: int|
            0 <= i < self.keys().len() && 0 <= j < self.keys().len() && i != j implies self.keys()[i]
            != self.keys()[j] by {
            if i < j {
                assert(self.entries@[i].0@ != self.entries@[j].0@);
            } else {
                assert(self.entries@[j].0@ != self.entries@[i].0@);
            }
        }
        assert forall|k: Seq<char>| #[trigger]
            self@.contains_key(k) == self.keys().to_set().contains(k) by {
            lemma_table_map_contains(self.entries@, k);
            if self@.contains_key(k) {
                let i = choose|i: int| 0 <= i < self.entries@.len() && self.entries@[i].0@ == k;
                assert(self.keys()[i] == k);
                assert(self.keys().contains(k));
            }
            if self.keys().to_set().contains(k) {
                let i = choose|i: int| 0 <= i < self.keys().len() && self.keys()[i] == k;
                assert(self.entries@[i].0@ == k);
            }
        }
        assert(self@.dom() =~= self.keys().to_set());
        self.keys().unique_seq_to_set();
        assert forall|i: int| 0 <= i < self.keys().len() implies #[trigger] self@.contains_key(
            self.keys()[i],
        ) by {
            assert(self.keys().to_set().contains(self.keys()[i]));
        }
    }

    /// Every single count is bounded by the sum of all counts.
    pub proof fn lemma_value_le_sum(self, k: Seq<char>)
        requires
            self.wf(),
            self@.contains_key(k),
        ensures
            self@[k] <= self.sum(),
    {
        lemma_table_map_contains(self.entries@, k);
        let i = choose|i: int| 0 <= i < self.entries@.len() && self.entries@[i].0@ == k;
        lemma_table_map_at(self.entries@, i);
        lemma_table_entry_le_sum(self.entries@, i);
    }

    pub fn new() -> (t: TermTable)
        ensures
            t.wf(),
            t@ == Map::<Seq<char>, nat>::empty(),
            t.sum() == 0,
            t.keys() == Seq::<Seq<char>>::empty(),
    {
        let t = TermTable { entries: Vec::new() };
        proof {
            assert(t.keys() =~= Seq::<Seq<char>>::empty());
        }
        t
    }

    /// The number of distinct terms in the table.
    pub fn len(&self) -> (n: usize)
        ensures
            n == self.keys().len(),
    {
        self.entries.len()
    }

    /// The term stored at position `i`.
    pub fn key_at(&self, i: usize) -> (k: &String)
        requires
            i < self.keys().len(),
        ensures
            k@ == self.keys()[i as int],
    {
        &self.entries[i].0
    }

    fn find(&self, k: &String) -> (r: Option<usize>)
        ensures
            match r {
                Some(i) => i < self.entries@.len() && self.entries@[i as int].0@ == k@,
                None => forall|j: int| 0 <= j < self.entries@.len() ==> self.entries@[j].0@ != k@,
            },
    {
        let n = self.entries.len();
        let mut i: usize = 0;
        while i < n
            invariant
                i <= n,
                n == self.entries@.len(),
                forall|j: int| 0 <= j < i ==> self.entries@[j].0@ != k@,
            decreases n - i,
        {
            if self.entries[i].0 == *k {
                return Some(i);
            }
            i += 1;
        }
        None
    }

    /// The count stored for term `k`, or `None` if the term is absent.
    pub fn get(&self, k: &String) -> (r: Option<usize>)
        requires
            self.wf(),
        ensures
            match r {
                Some(v) => self@.contains_key(k@) && v as nat == self@[k@],
                None => !self@.contains_key(k@),
            },
    {
        proof {
            lemma_table_map_contains(self.entries@, k@);
        }
        match self.find(k) {
            Some(i) => {
                proof {
                    lemma_table_map_at(self.entries@, i as int);
                }
                Some(self.entries[i].1)
            },
            None => None,
        }
    }

    /// Raises the count of term `k` by one, inserting it at one if absent.
    pub fn increment(&mut self, k: &String)
        requires
            old(self).wf(),
            old(self)@.contains_key(k@) ==> old(self)@[k@] < usize::MAX,
        ensures
            final(self).wf(),
            final(self).sum() == old(self).sum() + 1,
            final(self)@ == (if old(self)@.contains_key(k@) {
                old(self)@.insert(k@, (old(self)@[k@] + 1) as nat)
            } else {
                old(self)@.insert(k@, 1nat)
            }),
    {
        proof {
            lemma_table_map_contains(self.entries@, k@);
        }
        match self.find(k) {
            Some(i) => {
                proof {
                    lemma_table_map_at(self.entries@, i as int);
                    lemma_table_map_remove(self.entries@, i as int);
                }
                let ghost s0 = self.entries@;
                let (key, v) = self.entries.remove(i);
                proof {
                    lemma_table_map_contains(self.entries@, k@);
                    lemma_table_map_push(self.entries@, (key, (v + 1) as usize));
                }
                self.entries.push((key, v + 1));
                proof {
                    assert(keys_distinct(self.entries@)) by {
                        assert forall|a: int, b: int|
                            0 <= a < b < self.entries@.len() implies self.entries@[a].0@
                            != self.entries@[b].0@ by {
                            if b == self.entries@.len() - 1 {
                                assert(self.entries@[a] == s0.remove(i as int)[a]);
                            }
                        }
                    }
                    assert(final(self)@ =~= old(self)@.insert(k@, (old(self)@[k@] + 1) as nat));
                }
            },
            None => {
                let ghost s0 = self.entries@;
                self.entries.push((k.clone(), 1));
                proof {
                    lemma_table_map_push(s0, self.entries@.last());
                    assert(self.entries@ =~= s0.push(self.entries@.last()));
                    assert(keys_distinct(self.entries@)) by {
                        assert forall|a: int, b: int|
                            0 <= a < b < self.entries@.len() implies self.entries@[a].0@
                            != self.entries@[b].0@ by {
                            if b == self.entries@.len() - 1 {
                                assert(self.entries@[a] == s0[a]);
                            }
                        }
                    }
                }
            },
        }
    }

    /// Lowers the count of term `k` by one, deleting the entry when its count
    /// would reach zero; absent terms are left alone.
    pub fn decrement_or_remove(&mut self, k: &String)
        requires
            old(self).wf(),
        ensures
            final(self).wf(),
            final(self)@ == (if old(self)@.contains_key(k@) {
                if old(self)@[k@] <= 1 {
                    old(self)@.remove(k@)
                } else {
                    old(self)@.insert(k@, (old(self)@[k@] - 1) as nat)
                }
            } else {
                old(self)@
            }),
    {
        proof {
            lemma_table_map_contains(self.entries@, k@);
        }
        match self.find(k) {
            Some(i) => {
                proof {
                    lemma_table_map_at(self.entries@, i as int);
                    lemma_table_map_remove(self.entries@, i as int);
                }
                let ghost s0 = self.entries@;
                let (key, v) = self.entries.remove(i);
                if v > 1 {
                    proof {
                        lemma_table_map_contains(self.entries@, k@);
                        lemma_table_map_push(self.entries@, (key, (v - 1) as usize));
                    }
                    self.entries.push((key, v - 1));
                    proof {
                        assert(keys_distinct(self.entries@)) by {
                            assert forall|a: int, b: int|
                                0 <= a < b < self.entries@.len() implies self.entries@[a].0@
                                != self.entries@[b].0@ by {
                                if b == self.entries@.len() - 1 {
                                    assert(self.entries@[a] == s0.remove(i as int)[a]);
                                }
                            }
                        }
                        assert(final(self)@ =~= old(self)@.insert(k@, (old(self)@[k@] - 1) as nat));
                    }
                }
            },
            None => {},
        }
    }

    /// A copy of the table as a vector of (term, count) pairs.
    pub fn items(&self) -> (r: Vec<(String, usize)>)
        requires
            self.wf(),
        ensures
            r@.len() == self@.dom().len(),
            forall|i: int|
                0 <= i < r@.len() ==> #[trigger] self@.contains_key(r@[i].0@) && r@[i].1 as nat
                    == self@[r@[i].0@],
            forall|i: int, j: int| 0 <= i < j < r@.len() ==> r@[i].0@ != r@[j].0@,
    {
        proof {
            self.lemma_keys();
        }
        let n = self.entries.len();
        let mut r: Vec<(String, usize)> = Vec::new();
        let mut i: usize = 0;
        while i < n
            invariant
                i <= n,
                n == self.entries@.len(),
                self.wf(),
                r@.len() == i,
                forall|j: int| 0 <= j < i ==> #[trigger] r@[j].0@ == self.entries@[j].0@,
                forall|j: int|
                    0 <= j < i ==> #[trigger] self@.contains_key(r@[j].0@) && r@[j].1 as nat
                        == self@[r@[j].0@],
            decreases n - i,
        {
            proof {
                lemma_table_map_at(self.entries@, i as int);
            }
            r.push((self.entries[i].0.clone(), self.entries[i].1));
            i += 1;
        }
        proof {
            assert(self.keys().len() == self@.dom().len());
        }
        r
    }
}

} // verus!
