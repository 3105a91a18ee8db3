//! Ordered tables keyed by lists of interned strings, kept as sorted vectors.

use vstd::prelude::*;
use std::cmp::Ordering;
use std::rc::Rc;
use crate::text::{compare_text, lex_lt, lemma_lex_irrefl, lemma_lex_trans};

verus! {

/// A shared handle on a canonical string; it is equal to the text it holds.
pub type Interned = Rc<Vec<char>>;

/// The texts of a key, component by component.
pub open spec fn key_of(k: Seq<Interned>) -> Seq<Seq<char>> {
    k.map_values(|h: Interned| h@)
}

/// Component-wise lexicographic order on keys.
pub open spec fn key_lt(a: Seq<Seq<char>>, b: Seq<Seq<char>>) -> bool
    decreases a.len(),
{
    if a.len() == 0 {
        b.len() > 0
    } else if b.len() == 0 {
        false
    } else if a[0] != b[0] {
        lex_lt(a[0], b[0])
    } else {
        key_lt(a.drop_first(), b.drop_first())
    }
}

pub proof fn lemma_key_irrefl(a: Seq<Seq<char>>)
    ensures
        !key_lt(a, a),
    decreases a.len(),
{
    if a.len() > 0 {
        lemma_key_irrefl(a.drop_first());
    }
}

pub proof fn lemma_key_trans(a: Seq<Seq<char>>, b: Seq<Seq<char>>, c: Seq<Seq<char>>)
    requires
        key_lt(a, b),
        key_lt(b, c),
    ensures
        key_lt(a, c),
    decreases a.len(),
{
    if a.len() > 0 && b.len() > 0 && c.len() > 0 {
        if a[0] == b[0] && b[0] == c[0] {
            lemma_key_trans(a.drop_first(), b.drop_first(), c.drop_first());
        } else if a[0] != b[0] && b[0] != c[0] {
            lemma_lex_trans(a[0], b[0], c[0]);
            if a[0] == c[0] {
                lemma_lex_irrefl(a[0]);
                lemma_lex_trans(a[0], b[0], a[0]);
            }
        }
    }
}

proof fn lemma_key_skip(a: Seq<Seq<char>>, b: Seq<Seq<char>>, i: int)
    requires
        0 <= i <= a.len(),
        i <= b.len(),
        a.subrange(0, i) == b.subrange(0, i),
    ensures
        key_lt(a, b) == key_lt(a.subrange(i, a.len() as int), b.subrange(i, b.len() as int)),
    decreases i,
{
    if i > 0 {
        assert(a[0] == a.subrange(0, i)[0]);
        assert(b[0] == b.subrange(0, i)[0]);
        let a1 = a.drop_first();
        let b1 = b.drop_first();
        assert(a1.subrange(0, i - 1) =~= a.subrange(0, i).drop_first());
        assert(b1.subrange(0, i - 1) =~= b.subrange(0, i).drop_first());
        lemma_key_skip(a1, b1, i - 1);
        assert(a1.subrange(i - 1, a1.len() as int) =~= a.subrange(i, a.len() as int));
        assert(b1.subrange(i - 1, b1.len() as int) =~= b.subrange(i, b.len() as int));
    } else {
        assert(a.subrange(0, a.len() as int) =~= a);
        assert(b.subrange(0, b.len() as int) =~= b);
    }
}

/// Three-way comparison of two keys in the order `key_lt`.
pub fn compare_keys(a: &Vec<Interned>, b: &Vec<Interned>) -> (r: Ordering)
    ensures
        (r == Ordering::Less) == key_lt(key_of(a@), key_of(b@)),
        (r == Ordering::Equal) == (key_of(a@) == key_of(b@)),
        (r == Ordering::Greater) == key_lt(key_of(b@), key_of(a@)),
{
    let ghost ka = key_of(a@);
    let ghost kb = key_of(b@);
    let mut i: usize = 0;
    while i < a.len() && i < b.len()
        invariant
            i <= a.len(),
            i <= b.len(),
            ka == key_of(a@),
            kb == key_of(b@),
            ka.subrange(0, i as int) == kb.subrange(0, i as int),
        decreases a.len() - i,
    {
        let c = compare_text(a[i].as_slice(), b[i].as_slice());
        match c {
            Ordering::Equal => {},
            _ => {
                proof {
                    lemma_key_skip(ka, kb, i as int);
                    lemma_key_skip(kb, ka, i as int);
                    let sa = ka.subrange(i as int, ka.len() as int);
                    let sb = kb.subrange(i as int, kb.len() as int);
                    assert(sa[0] == ka[i as int]);
                    assert(sb[0] == kb[i as int]);
                }
                return c;
            },
        }
        assert(ka.subrange(0, i + 1) =~= ka.subrange(0, i as int).push(ka[i as int]));
        assert(kb.subrange(0, i + 1) =~= kb.subrange(0, i as int).push(kb[i as int]));
        i = i + 1;
    }
    proof {
        lemma_key_skip(ka, kb, i as int);
        lemma_key_skip(kb, ka, i as int);
        if a.len() == i && b.len() == i {
            assert(ka =~= ka.subrange(0, i as int));
            assert(kb =~= kb.subrange(0, i as int));
        }
        if a.len() != b.len() {
            assert(ka.len() != kb.len());
        }
    }
    if a.len() < b.len() {
        Ordering::Less
    } else if a.len() == b.len() {
        Ordering::Equal
    } else {
        Ordering::Greater
    }
}

/// A table from keys to values whose entries are kept in strictly increasing
/// key order, so that walking it visits the keys in `key_lt` order.
pub struct SortedTable<V> {
    pub keys: Vec<Vec<Interned>>,
    pub vals: Vec<V>,
}

impl<V> SortedTable<V> {
    /// The keys, as texts, in table order.
    pub open spec fn kv(&self) -> Seq<Seq<Seq<char>>> {
        self.keys@.map_values(|k: Vec<Interned>| key_of(k@))
    }

    pub open spec fn wf(&self) -> bool {
        &&& self.keys.len() == self.vals.len()
        &&& forall|i: int, j: int|
            0 <= i < j < self.keys.len() ==> #[trigger] key_lt(self.kv()[i], self.kv()[j])
    }

    /// Whether `k` is a key of the table.
    pub open spec fn has(&self, k: Seq<Seq<char>>) -> bool {
        exists|i: int| 0 <= i < self.keys.len() && #[trigger] self.kv()[i] == k
    }

    pub fn new() -> (r: Self)
        ensures
            r.wf(),
            r.keys@.len() == 0,
            r.vals@.len() == 0,
    {
        SortedTable { keys: Vec::new(), vals: Vec::new() }
    }

    /// Finds `k`: `Ok` with its position, or `Err` with the position where it
    /// would stand.
    pub fn find(&self, k: &Vec<Interned>) -> (r: Result<usize, usize>)
        requires
            self.wf(),
        ensures
            match r {
                Ok(i) => i < self.keys.len() && self.kv()[i as int] == key_of(k@),
                Err(i) => {
                    &&& i <= self.keys.len()
                    &&& forall|j: int| 0 <= j < i ==> key_lt(#[trigger] self.kv()[j], key_of(k@))
                    &&& forall|j: int|
                        i <= j < self.keys.len() ==> key_lt(key_of(k@), #[trigger] self.kv()[j])
                },
            },
            r is Ok <==> self.has(key_of(k@)),
    {
        let mut lo: usize = 0;
        let mut hi: usize = self.keys.len();
        while lo < hi
            invariant
                self.wf(),
                lo <= hi <= self.keys.len(),
                forall|j: int| 0 <= j < lo ==> key_lt(#[trigger] self.kv()[j], key_of(k@)),
                forall|j: int| hi <= j < self.keys.len() ==> key_lt(key_of(k@), #[trigger] self.kv()[j]),
            decreases hi - lo,
        {
            let mid = lo + (hi - lo) / 2;
            let c = compare_keys(&self.keys[mid], k);
            match c {
                Ordering::Equal => {
                    assert(self.kv()[mid as int] == key_of(k@));
                    return Ok(mid);
                },
                Ordering::Less => {
                    assert forall|j: int| 0 <= j < mid + 1 implies key_lt(#[trigger] self.kv()[j], key_of(k@)) by {
                        if j < mid {
                            assert(key_lt(self.kv()[j], self.kv()[mid as int]));
                            lemma_key_trans(self.kv()[j], self.kv()[mid as int], key_of(k@));
                        }
                    }
                    lo = mid + 1;
                },
                Ordering::Greater => {
                    assert forall|j: int| mid <= j < self.keys.len() implies key_lt(key_of(k@), #[trigger] self.kv()[j]) by {
                        if j > mid {
                            assert(key_lt(self.kv()[mid as int], self.kv()[j]));
                            lemma_key_trans(key_of(k@), self.kv()[mid as int], self.kv()[j]);
                        }
                    }
                    hi = mid;
                },
            }
        }
        proof {
            if self.has(key_of(k@)) {
                let j = choose|j: int| 0 <= j < self.keys.len() && #[trigger] self.kv()[j] == key_of(k@);
                lemma_key_irrefl(key_of(k@));
            }
        }
        Err(lo)
    }

    /// Puts a new entry at the position that `find` reported for its key.
    pub fn insert_at(&mut self, i: usize, k: Vec<Interned>, v: V)
        requires
            old(self).wf(),
            i <= old(self).keys.len(),
            forall|j: int| 0 <= j < i ==> key_lt(#[trigger] old(self).kv()[j], key_of(k@)),
            forall|j: int|
                i <= j < old(self).keys.len() ==> key_lt(key_of(k@), #[trigger] old(self).kv()[j]),
        ensures
            final(self).wf(),
            final(self).keys@ == old(self).keys@.insert(i as int, k),
            final(self).vals@ == old(self).vals@.insert(i as int, v),
            final(self).kv() == old(self).kv().insert(i as int, key_of(k@)),
    {
        let ghost ok = key_of(k@);
        self.keys.insert(i, k);
        self.vals.insert(i, v);
        assert(self.kv() =~= old(self).kv().insert(i as int, ok));
        assert forall|a: int, b: int| 0 <= a < b < self.keys.len() implies #[trigger] key_lt(self.kv()[a], self.kv()[b]) by {
            if a < i && b > i {
                lemma_key_trans(self.kv()[a], ok, self.kv()[b]);
            }
        }
    }

    /// A position of `k`, where it is a key.
    pub open spec fn index_of(&self, k: Seq<Seq<char>>) -> int {
        choose|i: int| 0 <= i < self.keys.len() && #[trigger] self.kv()[i] == k
    }

    /// The value stored under `k`, if any.
    pub open spec fn get(&self, k: Seq<Seq<char>>) -> Option<V> {
        if self.has(k) {
            Some(self.vals@[self.index_of(k)])
        } else {
            None
        }
    }

    pub proof fn lemma_get_at(&self, i: int)
        requires
            self.wf(),
            0 <= i < self.keys.len(),
        ensures
            self.has(self.kv()[i]),
            self.get(self.kv()[i]) == Some(self.vals@[i]),
    {
        let k = self.kv()[i];
        assert(self.kv()[i] == k);
        let j = self.index_of(k);
        assert(0 <= j < self.keys.len() && self.kv()[j] == k);
        if j != i {
            lemma_key_irrefl(k);
            if j < i {
                assert(key_lt(self.kv()[j], self.kv()[i]));
            } else {
                assert(key_lt(self.kv()[i], self.kv()[j]));
            }
        }
        assert(j == i);
        assert(self.get(k) == Some(self.vals@[j]));
    }

    /// Replaces the value at position `i`.
    pub fn set_at(&mut self, i: usize, v: V)
        requires
            old(self).wf(),
            i < old(self).keys.len(),
        ensures
            final(self).wf(),
            final(self).keys == old(self).keys,
            final(self).vals@ == old(self).vals@.update(i as int, v),
            forall|k: Seq<Seq<char>>| #[trigger] final(self).has(k) == old(self).has(k),
            forall|k: Seq<Seq<char>>|
                #[trigger] final(self).get(k) == if k == old(self).kv()[i as int] {
                    Some(v)
                } else {
                    old(self).get(k)
                },
    {
        self.vals.set(i, v);
        proof {
            assert(self.kv() == old(self).kv());
            assert forall|k: Seq<Seq<char>>| #[trigger] self.get(k) == if k == old(self).kv()[i as int] {
                Some(v)
            } else {
                old(self).get(k)
            } by {
                self.lemma_get_at(i as int);
                old(self).lemma_get_at(i as int);
                if self.has(k) {
                    let j = choose|j: int| 0 <= j < self.keys.len() && #[trigger] self.kv()[j] == k;
                    self.lemma_get_at(j);
                    old(self).lemma_get_at(j);
                }
            }
        }
    }

    /// After putting `k` at position `i`, every other key keeps its value.
    proof fn lemma_insert_get(old_t: &Self, new_t: &Self, i: int, k: Seq<Seq<char>>, v: V)
        requires
            old_t.wf(),
            new_t.wf(),
            0 <= i <= old_t.keys.len(),
            new_t.kv() == old_t.kv().insert(i, k),
            new_t.vals@ == old_t.vals@.insert(i, v),
            !old_t.has(k),
        ensures
            forall|k2: Seq<Seq<char>>| #[trigger] new_t.has(k2) == (old_t.has(k2) || k2 == k),
            forall|k2: Seq<Seq<char>>|
                #[trigger] new_t.get(k2) == if k2 == k { Some(v) } else { old_t.get(k2) },
    {
        assert forall|k2: Seq<Seq<char>>| #[trigger] new_t.has(k2) == (old_t.has(k2) || k2 == k)
            && new_t.get(k2) == (if k2 == k { Some(v) } else { old_t.get(k2) }) by {
            if new_t.has(k2) {
                let j = choose|j: int| 0 <= j < new_t.keys.len() && #[trigger] new_t.kv()[j] == k2;
                new_t.lemma_get_at(j);
                if j < i {
                    old_t.lemma_get_at(j);
                } else if j > i {
                    old_t.lemma_get_at(j - 1);
                }
            }
            if old_t.has(k2) {
                let j = choose|j: int| 0 <= j < old_t.keys.len() && #[trigger] old_t.kv()[j] == k2;
                let j2 = if j < i { j } else { j + 1 };
                assert(new_t.kv()[j2] == k2);
            }
            if k2 == k {
                assert(new_t.kv()[i] == k2);
            }
        }
    }

    /// Stores `v` under `k`, replacing any value that was there.
    pub fn put(&mut self, k: Vec<Interned>, v: V)
        requires
            old(self).wf(),
        ensures
            final(self).wf(),
            forall|k2: Seq<Seq<char>>| #[trigger] final(self).has(k2) == (old(self).has(k2) || k2 == key_of(k@)),
            forall|k2: Seq<Seq<char>>|
                #[trigger] final(self).get(k2) == if k2 == key_of(k@) { Some(v) } else { old(self).get(k2) },
    {
        let ghost kk = key_of(k@);
        match self.find(&k) {
            Ok(i) => {
                self.set_at(i, v);
            },
            Err(i) => {
                self.insert_at(i, k, v);
                proof {
                    Self::lemma_insert_get(old(self), self, i as int, kk, v);
                }
            },
        }
    }

    /// Stores `v` under `k` unless `k` is already there; says whether it stored.
    pub fn put_if_absent(&mut self, k: Vec<Interned>, v: V) -> (r: bool)
        requires
            old(self).wf(),
        ensures
            final(self).wf(),
            r == !old(self).has(key_of(k@)),
            forall|k2: Seq<Seq<char>>| #[trigger] final(self).has(k2) == (old(self).has(k2) || k2 == key_of(k@)),
            forall|k2: Seq<Seq<char>>|
                #[trigger] final(self).get(k2) == if k2 == key_of(k@) && r { Some(v) } else { old(self).get(k2) },
    {
        let ghost kk = key_of(k@);
        match self.find(&k) {
            Ok(_) => false,
            Err(i) => {
                self.insert_at(i, k, v);
                proof {
                    Self::lemma_insert_get(old(self), self, i as int, kk, v);
                }
                true
            },
        }
    }
}

impl<T> SortedTable<Vec<T>> {
    /// The list stored under `k`, or the empty list.
    pub open spec fn list(&self, k: Seq<Seq<char>>) -> Seq<T> {
        match self.get(k) {
            Some(v) => v@,
            None => Seq::empty(),
        }
    }

    /// Appends `x` to the list stored under `k`, creating it if needed.
    pub fn push_to(&mut self, k: Vec<Interned>, x: T)
        requires
            old(self).wf(),
        ensures
            final(self).wf(),
            forall|k2: Seq<Seq<char>>| #[trigger] final(self).has(k2) == (old(self).has(k2) || k2 == key_of(k@)),
            forall|k2: Seq<Seq<char>>|
                #[trigger] final(self).list(k2) == if k2 == key_of(k@) {
                    old(self).list(k2).push(x)
                } else {
                    old(self).list(k2)
                },
    {
        let ghost kk = key_of(k@);
        match self.find(&k) {
            Ok(i) => {
                proof {
                    self.lemma_get_at(i as int);
                }
                let ghost before = self.vals@[i as int]@;
                self.vals[i].push(x);
                proof {
                    assert(self.kv() == old(self).kv());
                    assert forall|k2: Seq<Seq<char>>| #[trigger] self.list(k2) == if k2 == kk {
                        old(self).list(k2).push(x)
                    } else {
                        old(self).list(k2)
                    } by {
                        self.lemma_get_at(i as int);
                        old(self).lemma_get_at(i as int);
                        if self.has(k2) {
                            let j = choose|j: int| 0 <= j < self.keys.len() && #[trigger] self.kv()[j] == k2;
                            self.lemma_get_at(j);
                            old(self).lemma_get_at(j);
                        }
                    }
                }
            },
            Err(i) => {
                let mut v: Vec<T> = Vec::new();
                v.push(x);
                self.insert_at(i, k, v);
                proof {
                    Self::lemma_insert_get(old(self), self, i as int, kk, v);
                    assert(v@ =~= Seq::<T>::empty().push(x));
                }
            },
        }
    }
}

/// Two well-formed tables that hold the same keys list them in the same
/// order, whatever order they were inserted in.
pub proof fn lemma_same_keys_same_order<V, W>(a: SortedTable<V>, b: SortedTable<W>)
    requires
        a.wf(),
        b.wf(),
        forall|k: Seq<Seq<char>>| a.has(k) == b.has(k),
    ensures
        a.kv() == b.kv(),
{
    let n = if a.keys.len() <= b.keys.len() { a.keys.len() as int } else { b.keys.len() as int };
    lemma_same_prefix(a, b, n);
    if a.keys.len() > n {
        let k = a.kv()[n];
        assert(a.has(k));
        let j = choose|j: int| 0 <= j < b.keys.len() && #[trigger] b.kv()[j] == k;
        assert(a.kv()[j] == k);
        assert(key_lt(a.kv()[j], a.kv()[n]));
        lemma_key_irrefl(k);
    }
    if b.keys.len() > n {
        let k = b.kv()[n];
        assert(b.has(k));
        let j = choose|j: int| 0 <= j < a.keys.len() && #[trigger] a.kv()[j] == k;
        assert(b.kv()[j] == k);
        assert(key_lt(b.kv()[j], b.kv()[n]));
        lemma_key_irrefl(k);
    }
    assert(a.kv() =~= b.kv());
}

proof fn lemma_same_prefix<V, W>(a: SortedTable<V>, b: SortedTable<W>, n: int)
    requires
        a.wf(),
        b.wf(),
        forall|k: Seq<Seq<char>>| a.has(k) == b.has(k),
        0 <= n <= a.keys.len(),
        n <= b.keys.len(),
    ensures
        forall|i: int| 0 <= i < n ==> a.kv()[i] == b.kv()[i],
    decreases n,
{
    if n > 0 {
        let m = n - 1;
        lemma_same_prefix(a, b, m);
        let ka = a.kv()[m];
        let kb = b.kv()[m];
        assert(a.has(ka));
        assert(b.has(kb));
        let j = choose|j: int| 0 <= j < b.keys.len() && #[trigger] b.kv()[j] == ka;
        let i = choose|i: int| 0 <= i < a.keys.len() && #[trigger] a.kv()[i] == kb;
        lemma_key_irrefl(ka);
        lemma_key_irrefl(kb);
        if j < m {
            assert(a.kv()[j] == ka);
            assert(key_lt(a.kv()[j], a.kv()[m]));
        }
        if i < m {
            assert(b.kv()[i] == kb);
            assert(key_lt(b.kv()[i], b.kv()[m]));
        }
        if j > m {
            assert(key_lt(kb, ka));
            if i > m {
                assert(key_lt(ka, kb));
                lemma_key_trans(ka, kb, ka);
            }
        }
        if i > m && j == m {
            assert(kb == ka);
        }
    }
}

} // verus!
