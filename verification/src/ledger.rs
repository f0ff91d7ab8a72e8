//! A map from numbers to values, kept in ascending order of its keys.

use vstd::prelude::*;

verus! {

/// The first place in `s` from which on every key is at least `k`.
pub open spec fn rank<V>(s: Seq<(u64, V)>, k: u64) -> nat
    decreases s.len(),
{
    if s.len() == 0 {
        0
    } else if s.last().0 < k {
        s.len()
    } else {
        rank(s.drop_last(), k)
    }
}

/// Whether `s` holds an entry for `k`.
pub open spec fn holds<V>(s: Seq<(u64, V)>, k: u64) -> bool {
    rank(s, k) < s.len() && s[rank(s, k) as int].0 == k
}

/// The value that `s` holds for `k`.
pub open spec fn at<V>(s: Seq<(u64, V)>, k: u64) -> V
    recommends
        holds(s, k),
{
    s[rank(s, k) as int].1
}

/// `s` with the entry for `k` set to `v`.
pub open spec fn put<V>(s: Seq<(u64, V)>, k: u64, v: V) -> Seq<(u64, V)> {
    if holds(s, k) {
        s.update(rank(s, k) as int, (k, v))
    } else {
        s.insert(rank(s, k) as int, (k, v))
    }
}

/// `s` without an entry for `k`.
pub open spec fn without<V>(s: Seq<(u64, V)>, k: u64) -> Seq<(u64, V)> {
    if holds(s, k) {
        s.remove(rank(s, k) as int)
    } else {
        s
    }
}

/// Whether the keys of `s` ascend, so that none occurs twice.
pub open spec fn ascending<V>(s: Seq<(u64, V)>) -> bool {
    forall|i: int, j: int| 0 <= i < j < s.len() ==> (#[trigger] s[i]).0 < (#[trigger] s[j]).0
}

/// What `rank` is, stated of the entries on either side of it.
pub proof fn lemma_rank<V>(s: Seq<(u64, V)>, k: u64)
    ensures
        rank(s, k) <= s.len(),
        forall|j: int| rank(s, k) <= j < s.len() ==> (#[trigger] s[j]).0 >= k,
        rank(s, k) > 0 ==> s[rank(s, k) - 1].0 < k,
        ascending(s) ==> forall|j: int| 0 <= j < rank(s, k) ==> (#[trigger] s[j]).0 < k,
        ascending(s) ==> (holds(s, k) <==> exists|j: int| 0 <= j < s.len() && (#[trigger] s[j]).0 == k),
    decreases s.len(),
{
    if s.len() > 0 && s.last().0 >= k {
        let t = s.drop_last();
        lemma_rank(t, k);
        assert forall|j: int| rank(s, k) <= j < s.len() implies (#[trigger] s[j]).0 >= k by {
            if j < t.len() {
                assert(t[j] == s[j]);
            }
        }
        if rank(s, k) > 0 {
            assert(t[rank(t, k) - 1] == s[rank(s, k) - 1]);
        }
    }
    if ascending(s) && holds(s, k) {
        assert(s[rank(s, k) as int].0 == k);
    }
    if ascending(s) && exists|j: int| 0 <= j < s.len() && (#[trigger] s[j]).0 == k {
        let j = choose|j: int| 0 <= j < s.len() && (#[trigger] s[j]).0 == k;
        assert(j >= rank(s, k));
        if j > rank(s, k) {
            assert(s[rank(s, k) as int].0 < s[j].0);
        }
    }
}

/// A place whose left neighbour is below `k`, with nothing below `k` from it
/// on, is the rank of `k`.
pub proof fn lemma_rank_unique<V>(s: Seq<(u64, V)>, k: u64, p: int)
    requires
        0 <= p <= s.len(),
        forall|j: int| p <= j < s.len() ==> (#[trigger] s[j]).0 >= k,
        p > 0 ==> s[p - 1].0 < k,
    ensures
        p == rank(s, k),
    decreases s.len(),
{
    if s.len() > 0 && s.last().0 >= k {
        let t = s.drop_last();
        assert forall|j: int| p <= j < t.len() implies (#[trigger] t[j]).0 >= k by {
            assert(t[j] == s[j]);
        }
        if p > 0 {
            assert(t[p - 1] == s[p - 1]);
        }
        lemma_rank_unique(t, k, p);
    }
}

/// Setting an entry keeps the order, makes the key present with its new
/// value, and leaves every other key as it was.
pub proof fn lemma_put<V>(s: Seq<(u64, V)>, k: u64, v: V)
    requires
        ascending(s),
    ensures
        ascending(put(s, k, v)),
        holds(put(s, k, v), k),
        at(put(s, k, v), k) == v,
        put(s, k, v).len() == s.len() + if holds(s, k) { 0int } else { 1int },
        forall|o: u64| o != k ==> (holds(put(s, k, v), o) <==> #[trigger] holds(s, o)),
        forall|o: u64| o != k && #[trigger] holds(s, o) ==> at(put(s, k, v), o) == at(s, o),
{
    let t = put(s, k, v);
    let p = rank(s, k) as int;
    lemma_rank(s, k);
    if holds(s, k) {
        assert(t =~= s.update(p, (k, v)));
        assert forall|i: int, j: int| 0 <= i < j < t.len() implies (#[trigger] t[i]).0 < (
        #[trigger] t[j]).0 by {
            assert(s[i].0 < s[j].0);
        }
    } else {
        assert forall|i: int, j: int| 0 <= i < j < t.len() implies (#[trigger] t[i]).0 < (
        #[trigger] t[j]).0 by {
            let a = if i < p { i } else { i - 1 };
            let b = if j < p { j } else { j - 1 };
            if i != p {
                assert(t[i] == s[a]);
            }
            if j != p {
                assert(t[j] == s[b]);
            }
            if i != p && j != p {
                assert(s[a].0 < s[b].0);
            }
        }
    }
    lemma_rank_unique(t, k, p);
    lemma_rank(t, k);
    assert forall|o: u64| o != k implies (holds(t, o) <==> #[trigger] holds(s, o)) && (holds(s, o)
        ==> at(t, o) == at(s, o)) by {
        lemma_rank(s, o);
        lemma_rank(t, o);
        if holds(s, o) {
            let q = rank(s, o) as int;
            let q2 = if holds(s, k) || q < p { q } else { q + 1 };
            assert(t[q2] == s[q]);
            assert forall|j: int| q2 <= j < t.len() implies (#[trigger] t[j]).0 >= o by {
                if j > q2 {
                    assert(t[q2].0 < t[j].0);
                }
            }
            if q2 > 0 {
                assert(t[q2 - 1].0 < t[q2].0);
            }
            lemma_rank_unique(t, o, q2);
        }
        if holds(t, o) {
            let q = rank(t, o) as int;
            let q2 = if holds(s, k) || q < p { q } else { q - 1 };
            assert(s[q2] == t[q]);
        }
    }
}

/// An entry that is there is found.
pub proof fn lemma_found<V>(s: Seq<(u64, V)>, q: int)
    requires
        ascending(s),
        0 <= q < s.len(),
    ensures
        rank(s, s[q].0) == q,
        holds(s, s[q].0),
        at(s, s[q].0) == s[q].1,
{
    let o = s[q].0;
    assert forall|j: int| q <= j < s.len() implies (#[trigger] s[j]).0 >= o by {
        if j > q {
            assert(s[q].0 < s[j].0);
        }
    }
    if q > 0 {
        assert(s[q - 1].0 < s[q].0);
    }
    lemma_rank_unique(s, o, q);
}

proof fn lemma_removed<V>(s: Seq<(u64, V)>, p: int)
    requires
        ascending(s),
        0 <= p < s.len(),
    ensures
        ascending(s.remove(p)),
        forall|j: int| 0 <= j < s.remove(p).len() ==> (#[trigger] s.remove(p)[j]).0 != s[p].0,
{
    let t = s.remove(p);
    assert forall|i: int, j: int| 0 <= i < j < t.len() implies (#[trigger] t[i]).0 < (
    #[trigger] t[j]).0 by {
        let a = if i < p { i } else { i + 1 };
        let b = if j < p { j } else { j + 1 };
        assert(s[a].0 < s[b].0);
    }
    assert forall|j: int| 0 <= j < t.len() implies (#[trigger] t[j]).0 != s[p].0 by {
        if j < p {
            assert(s[j].0 < s[p].0);
        } else {
            assert(s[p].0 < s[j + 1].0);
        }
    }
}

proof fn lemma_removed_other<V>(s: Seq<(u64, V)>, p: int, o: u64)
    requires
        ascending(s),
        0 <= p < s.len(),
        o != s[p].0,
    ensures
        holds(s.remove(p), o) <==> holds(s, o),
        holds(s, o) ==> at(s.remove(p), o) == at(s, o),
{
    let t = s.remove(p);
    lemma_removed(s, p);
    if holds(s, o) {
        let q = rank(s, o) as int;
        let q2 = if q < p { q } else { q - 1 };
        assert(t[q2] == s[q]);
        lemma_found(t, q2);
    }
    if holds(t, o) {
        let q = rank(t, o) as int;
        let q2 = if q < p { q } else { q + 1 };
        assert(s[q2] == t[q]);
        lemma_found(s, q2);
    }
}

/// Removing an entry keeps the order and takes that key out, and no other.
pub proof fn lemma_without<V>(s: Seq<(u64, V)>, k: u64)
    requires
        ascending(s),
    ensures
        ascending(without(s, k)),
        !holds(without(s, k), k),
        without(s, k).len() == s.len() - if holds(s, k) { 1int } else { 0int },
        forall|o: u64| o != k ==> (holds(without(s, k), o) <==> #[trigger] holds(s, o)),
        forall|o: u64| o != k && #[trigger] holds(s, o) ==> at(without(s, k), o) == at(s, o),
{
    if holds(s, k) {
        let p = rank(s, k) as int;
        lemma_removed(s, p);
        assert forall|o: u64| o != k implies (holds(without(s, k), o) <==> #[trigger] holds(s, o))
            && (holds(s, o) ==> at(without(s, k), o) == at(s, o)) by {
            lemma_removed_other(s, p, o);
        }
    }
}

/// Taking an entry out and setting it again is setting it.
pub proof fn lemma_put_again<V>(s: Seq<(u64, V)>, k: u64, v: V)
    requires
        ascending(s),
        holds(s, k),
    ensures
        put(without(s, k), k, v) == put(s, k, v),
{
    let p = rank(s, k) as int;
    let t = without(s, k);
    lemma_rank(s, k);
    lemma_without(s, k);
    assert(t == s.remove(p));
    assert forall|j: int| p <= j < t.len() implies (#[trigger] t[j]).0 >= k by {
        let after = j + 1;
        assert(s[after].0 >= k);
    }
    if p > 0 {
        assert(s[p - 1].0 < k);
    }
    lemma_rank_unique(t, k, p);
    assert(t.insert(p, (k, v)) =~= s.update(p, (k, v)));
}

/// Setting an entry behind every other appends it.
pub proof fn lemma_put_last<V>(s: Seq<(u64, V)>, k: u64, v: V)
    requires
        ascending(s),
        forall|i: int| 0 <= i < s.len() ==> (#[trigger] s[i]).0 < k,
    ensures
        put(s, k, v) == s.push((k, v)),
        ascending(s.push((k, v))),
{
    lemma_rank(s, k);
    lemma_put(s, k, v);
    lemma_rank_unique(s, k, s.len() as int);
    assert(put(s, k, v) =~= s.push((k, v)));
}

/// The map itself. Its view is its entries in ascending order of their keys.
pub struct Ledger<V> {
    entries: Vec<(u64, V)>,
}

impl<V> View for Ledger<V> {
    type V = Seq<(u64, V)>;

    closed spec fn view(&self) -> Seq<(u64, V)> {
        self.entries@
    }
}

impl<V> Ledger<V> {
    /// An empty map.
    pub fn new() -> (r: Self)
        ensures
            r@ == Seq::<(u64, V)>::empty(),
            ascending(r@),
    {
        Ledger { entries: Vec::new() }
    }

    /// How many entries there are.
    pub fn len(&self) -> (r: usize)
        ensures
            r == self@.len(),
    {
        self.entries.len()
    }

    /// The key of the entry at `i`.
    pub fn key(&self, i: usize) -> (r: u64)
        requires
            i < self@.len(),
        ensures
            r == self@[i as int].0,
    {
        self.entries[i].0
    }

    /// The value of the entry at `i`.
    pub fn value(&self, i: usize) -> (r: &V)
        requires
            i < self@.len(),
        ensures
            *r == self@[i as int].1,
    {
        &self.entries[i].1
    }

    fn place(&self, k: u64) -> (r: usize)
        ensures
            r == rank(self@, k),
            r <= self@.len(),
    {
        let mut i: usize = self.entries.len();
        while i > 0 && self.entries[i - 1].0 >= k
            invariant
                i <= self@.len(),
                forall|j: int| i <= j < self@.len() ==> (#[trigger] self@[j]).0 >= k,
            decreases i,
        {
            i = i - 1;
        }
        proof {
            lemma_rank_unique(self@, k, i as int);
        }
        i
    }

    /// Where the entry for `k` is, if there is one.
    pub fn find(&self, k: u64) -> (r: Option<usize>)
        ensures
            r is Some <==> holds(self@, k),
            r matches Some(i) ==> i == rank(self@, k) && i < self@.len(),
    {
        let i = self.place(k);
        if i < self.entries.len() && self.entries[i].0 == k {
            Some(i)
        } else {
            None
        }
    }

    /// The value for `k`, if there is one.
    pub fn get(&self, k: u64) -> (r: Option<&V>)
        ensures
            r is Some <==> holds(self@, k),
            r matches Some(v) ==> *v == at(self@, k),
    {
        match self.find(k) {
            Some(i) => Some(&self.entries[i].1),
            None => None,
        }
    }

    /// Sets the entry for `k`.
    pub fn set(&mut self, k: u64, v: V)
        requires
            ascending(old(self)@),
        ensures
            final(self)@ == put(old(self)@, k, v),
            ascending(final(self)@),
    {
        proof {
            lemma_put(self@, k, v);
        }
        let i = self.place(k);
        if i < self.entries.len() && self.entries[i].0 == k {
            self.entries.set(i, (k, v));
        } else {
            self.entries.insert(i, (k, v));
        }
    }

    /// Takes every entry out.
    pub fn drain(&mut self) -> (r: Vec<(u64, V)>)
        ensures
            r@ == old(self)@,
            final(self)@ == Seq::<(u64, V)>::empty(),
    {
        let mut out: Vec<(u64, V)> = Vec::new();
        out.append(&mut self.entries);
        assert(self.entries@ =~= Seq::empty());
        out
    }

    /// Takes the entry for `k` out.
    pub fn take(&mut self, k: u64) -> (r: Option<V>)
        requires
            ascending(old(self)@),
        ensures
            final(self)@ == without(old(self)@, k),
            ascending(final(self)@),
            r is Some <==> holds(old(self)@, k),
            r matches Some(v) ==> v == at(old(self)@, k),
    {
        proof {
            lemma_without(self@, k);
        }
        let i = self.place(k);
        if i < self.entries.len() && self.entries[i].0 == k {
            let (_, v) = self.entries.remove(i);
            Some(v)
        } else {
            None
        }
    }
}

} // verus!
