use vstd::prelude::*;

verus! {

/// The table of open transactions, keyed by handle. It is the sole owner of
/// each native transaction it holds.
pub struct TransactionRegistry<T> {
    entries: Vec<(String, T)>,
    issued: Vec<String>,
}

/// No two entries share a handle.
pub open spec fn keys_unique<T>(s: Seq<(String, T)>) -> bool {
    forall|i: int, j: int| 0 <= i < j < s.len() ==> s[i].0@ != s[j].0@
}

/// The map from handle text to transaction that a list of entries denotes.
pub open spec fn map_of<T>(s: Seq<(String, T)>) -> Map<Seq<char>, T>
    decreases s.len(),
{
    if s.len() == 0 {
        Map::empty()
    } else {
        map_of(s.drop_last()).insert(s.last().0@, s.last().1)
    }
}

proof fn lemma_map_of_index<T>(s: Seq<(String, T)>, i: int)
    requires
        keys_unique(s),
        0 <= i < s.len(),
    ensures
        map_of(s).contains_key(s[i].0@),
        map_of(s)[s[i].0@] == s[i].1,
    decreases s.len(),
{
    if i < s.len() - 1 {
        let t = s.drop_last();
        assert(t[i] == s[i]);
        lemma_map_of_index(t, i);
    }
}

proof fn lemma_map_of_absent<T>(s: Seq<(String, T)>, k: Seq<char>)
    requires
        forall|j: int| 0 <= j < s.len() ==> s[j].0@ != k,
    ensures
        !map_of(s).contains_key(k),
    decreases s.len(),
{
    if s.len() > 0 {
        lemma_map_of_absent(s.drop_last(), k);
    }
}

proof fn lemma_map_of_push<T>(s: Seq<(String, T)>, e: (String, T))
    requires
        keys_unique(s),
        !map_of(s).contains_key(e.0@),
    ensures
        keys_unique(s.push(e)),
        map_of(s.push(e)) == map_of(s).insert(e.0@, e.1),
{
    assert(s.push(e).drop_last() =~= s);
    assert forall|i: int, j: int| 0 <= i < j < s.push(e).len() implies s.push(e)[i].0@ != s.push(
        e,
    )[j].0@ by {
        if j == s.len() {
            lemma_map_of_index(s, i);
        }
    }
}

proof fn lemma_map_of_remove<T>(s: Seq<(String, T)>, i: int)
    requires
        keys_unique(s),
        0 <= i < s.len(),
    ensures
        keys_unique(s.remove(i)),
        map_of(s.remove(i)) == map_of(s).remove(s[i].0@),
{
    let t = s.remove(i);
    let k0 = s[i].0@;
    assert forall|a: int, b: int| 0 <= a < b < t.len() implies t[a].0@ != t[b].0@ by {
        let sa = if a < i { a } else { a + 1 };
        let sb = if b < i { b } else { b + 1 };
        assert(t[a] == s[sa] && t[b] == s[sb]);
    }
    lemma_map_of_index(s, i);
    assert forall|k: Seq<char>| #[trigger] map_of(t).contains_key(k) == map_of(s).remove(
        k0,
    ).contains_key(k) by {
        if exists|j: int| 0 <= j < t.len() && t[j].0@ == k {
            let j = choose|j: int| 0 <= j < t.len() && t[j].0@ == k;
            let sj = if j < i { j } else { j + 1 };
            assert(t[j] == s[sj]);
            lemma_map_of_index(t, j);
            lemma_map_of_index(s, sj);
        } else {
            lemma_map_of_absent(t, k);
            if k != k0 {
                assert forall|j: int| 0 <= j < s.len() implies s[j].0@ != k by {
                    if j < i {
                        assert(t[j] == s[j]);
                    } else if j > i {
                        assert(t[j - 1] == s[j]);
                    }
                }
                lemma_map_of_absent(s, k);
            }
        }
    }
    assert forall|k: Seq<char>| #[trigger] map_of(t).contains_key(k) implies map_of(t)[k]
        == map_of(s)[k] by {
        if exists|j: int| 0 <= j < t.len() && t[j].0@ == k {
            let j = choose|j: int| 0 <= j < t.len() && t[j].0@ == k;
            let sj = if j < i { j } else { j + 1 };
            assert(t[j] == s[sj]);
            lemma_map_of_index(t, j);
            lemma_map_of_index(s, sj);
        } else {
            lemma_map_of_absent(t, k);
        }
    }
    assert(map_of(t) =~= map_of(s).remove(k0));
}

impl<T> View for TransactionRegistry<T> {
    type V = Map<Seq<char>, T>;

    closed spec fn view(&self) -> Map<Seq<char>, T> {
        map_of(self.entries@)
    }
}

impl<T> TransactionRegistry<T> {
    /// The registry's invariant: at most one entry per handle, and every open
    /// handle is among the issued ones.
    pub closed spec fn wf(&self) -> bool {
        &&& keys_unique(self.entries@)
        &&& forall|k: Seq<char>| #[trigger] self@.contains_key(k) ==> self.issued().contains(k)
    }

    /// Every handle that has ever been registered, open or closed.
    pub closed spec fn issued(&self) -> Set<Seq<char>> {
        Set::new(|k: Seq<char>| exists|i: int| 0 <= i < self.issued@.len() && self.issued@[i]@ == k)
    }

    /// An empty registry that has issued no handle.
    pub fn new() -> (r: Self)
        ensures
            r.wf(),
            r@ == Map::<Seq<char>, T>::empty(),
            r.issued() == Set::<Seq<char>>::empty(),
    {
        let r = TransactionRegistry { entries: Vec::new(), issued: Vec::new() };
        assert(r.issued() =~= Set::<Seq<char>>::empty());
        r
    }

    /// Whether `handle` has ever been registered.
    pub fn was_issued(&self, handle: &String) -> (r: bool)
        ensures
            r == self.issued().contains(handle@),
    {
        let mut i: usize = 0;
        while i < self.issued.len()
            invariant
                i <= self.issued@.len(),
                forall|j: int| 0 <= j < i ==> self.issued@[j]@ != handle@,
            decreases self.issued@.len() - i,
        {
            if self.issued[i] == *handle {
                return true;
            }
            i += 1;
        }
        false
    }

    fn position(&self, handle: &String) -> (r: Option<usize>)
        requires
            keys_unique(self.entries@),
        ensures
            match r {
                Some(i) => i < self.entries@.len() && self.entries@[i as int].0@ == handle@,
                None => !self@.contains_key(handle@),
            },
    {
        let mut i: usize = 0;
        while i < self.entries.len()
            invariant
                i <= self.entries@.len(),
                forall|j: int| 0 <= j < i ==> self.entries@[j].0@ != handle@,
            decreases self.entries@.len() - i,
        {
            if self.entries[i].0 == *handle {
                return Some(i);
            }
            i += 1;
        }
        proof {
            lemma_map_of_absent(self.entries@, handle@);
        }
        None
    }

    /// Whether a transaction is open under `handle`.
    pub fn contains(&self, handle: &String) -> (r: bool)
        requires
            self.wf(),
        ensures
            r == self@.contains_key(handle@),
    {
        match self.position(handle) {
            Some(i) => {
                proof {
                    lemma_map_of_index(self.entries@, i as int);
                }
                true
            },
            None => false,
        }
    }

    /// Number of open transactions.
    pub fn len(&self) -> (r: usize)
        requires
            self.wf(),
        ensures
            r == self@.len(),
    {
        proof {
            self.lemma_len();
        }
        self.entries.len()
    }

    proof fn lemma_len(&self)
        requires
            self.wf(),
        ensures
            self@.dom().finite(),
            self@.len() == self.entries@.len(),
    {
        lemma_dom_len(self.entries@);
    }

    /// Stores `tx` under `handle`, which counts as issued from then on; a
    /// transaction already stored under that handle is displaced and handed back.
    pub fn insert(&mut self, handle: String, tx: T) -> (r: Option<T>)
        requires
            old(self).wf(),
        ensures
            final(self).wf(),
            final(self)@ == old(self)@.insert(handle@, tx),
            final(self).issued() == old(self).issued().insert(handle@),
            match r {
                Some(prev) => old(self)@.contains_key(handle@) && prev == old(self)@[handle@],
                None => !old(self)@.contains_key(handle@),
            },
    {
        let ghost issued_before = self.issued@;
        self.issued.push(handle.clone());
        proof {
            let n = issued_before.len();
            assert(self.issued@[n as int]@ == handle@);
            assert forall|k: Seq<char>| #[trigger] self.issued().contains(k) == old(self).issued().insert(
                handle@,
            ).contains(k) by {
                if old(self).issued().contains(k) {
                    let i = choose|i: int| 0 <= i < issued_before.len() && issued_before[i]@ == k;
                    assert(self.issued@[i] == issued_before[i]);
                }
                if self.issued().contains(k) && k != handle@ {
                    let i = choose|i: int| 0 <= i < self.issued@.len() && self.issued@[i]@ == k;
                    assert(issued_before[i] == self.issued@[i]);
                }
            }
            assert(self.issued() =~= old(self).issued().insert(handle@));
        }
        let displaced = match self.position(&handle) {
            Some(i) => {
                proof {
                    lemma_map_of_index(self.entries@, i as int);
                    lemma_map_of_remove(self.entries@, i as int);
                }
                let (_, prev) = self.entries.remove(i);
                Some(prev)
            },
            None => None,
        };
        proof {
            lemma_map_of_push(self.entries@, (handle, tx));
        }
        self.entries.push((handle, tx));
        proof {
            assert(self@ =~= old(self)@.insert(handle@, tx));
            assert forall|k: Seq<char>| #[trigger] self@.contains_key(k) implies self.issued().contains(k) by {
                if k != handle@ {
                    assert(old(self)@.contains_key(k));
                }
            }
        }
        displaced
    }

    /// Removes the entry for `handle` and hands its transaction out, so that
    /// the handle is closed before any action is taken on the transaction.
    pub fn take(&mut self, handle: &String) -> (r: Option<T>)
        requires
            old(self).wf(),
        ensures
            final(self).wf(),
            final(self)@ == old(self)@.remove(handle@),
            final(self).issued() == old(self).issued(),
            match r {
                Some(tx) => old(self)@.contains_key(handle@) && tx == old(self)@[handle@],
                None => !old(self)@.contains_key(handle@),
            },
    {
        match self.position(handle) {
            Some(i) => {
                proof {
                    lemma_map_of_index(self.entries@, i as int);
                    lemma_map_of_remove(self.entries@, i as int);
                }
                let (_, tx) = self.entries.remove(i);
                proof {
                    assert forall|k: Seq<char>| #[trigger] self@.contains_key(k) implies self.issued().contains(k) by {
                        assert(old(self)@.contains_key(k));
                    }
                }
                Some(tx)
            },
            None => {
                assert(old(self)@.remove(handle@) =~= old(self)@);
                None
            },
        }
    }
}

proof fn lemma_dom_len<T>(s: Seq<(String, T)>)
    requires
        keys_unique(s),
    ensures
        map_of(s).dom().finite(),
        map_of(s).len() == s.len(),
    decreases s.len(),
{
    if s.len() > 0 {
        let t = s.drop_last();
        assert forall|j: int| 0 <= j < t.len() implies t[j].0@ != s.last().0@ by {
            assert(t[j] == s[j]);
        }
        lemma_map_of_absent(t, s.last().0@);
        lemma_dom_len(t);
    }
}

} // verus!
