//! An insertion-ordered map from byte-string names to byte-string values,
//! where inserting an existing name replaces its value in place.
use vstd::prelude::*;

verus! {

pub type FieldsView = Seq<(Seq<u8>, Seq<u8>)>;

/// Whether entry `i` of `h` is named `k`.
pub open spec fn key_at(h: FieldsView, k: Seq<u8>, i: int) -> bool {
    0 <= i < h.len() && h[i].0 == k
}

/// The first entry named `k`.
#[verifier::opaque]
pub open spec fn first_key(h: FieldsView, k: Seq<u8>) -> Option<int> {
    if exists|i: int| key_at(h, k, i) {
        Some(choose|i: int| key_at(h, k, i) && forall|j: int| 0 <= j < i ==> !key_at(h, k, j))
    } else {
        None
    }
}

/// The value stored under `k`.
pub open spec fn lookup(h: FieldsView, k: Seq<u8>) -> Option<Seq<u8>> {
    match first_key(h, k) {
        Some(i) => Some(h[i].1),
        None => None,
    }
}

/// `h` with `k` bound to `v`: the entry keeps its place if `k` was there,
/// else it is added at the end.
pub open spec fn insert(h: FieldsView, k: Seq<u8>, v: Seq<u8>) -> FieldsView {
    match first_key(h, k) {
        Some(i) => h.update(i, (k, v)),
        None => h.push((k, v)),
    }
}

pub proof fn lemma_first_key_unique(h: FieldsView, k: Seq<u8>, i: int)
    requires
        key_at(h, k, i),
        forall|j: int| 0 <= j < i ==> !key_at(h, k, j),
    ensures
        first_key(h, k) == Some(i),
{
    reveal(first_key);
    let c = choose|c: int| key_at(h, k, c) && forall|j: int| 0 <= j < c ==> !key_at(h, k, j);
    assert(key_at(h, k, c) && forall|j: int| 0 <= j < c ==> !key_at(h, k, j));
    if c < i {
        assert(!key_at(h, k, c));
    } else if c > i {
        assert(!key_at(h, k, i));
    }
}

/// What `first_key` picks: an entry named `k` with none before it.
pub proof fn lemma_first_key(h: FieldsView, k: Seq<u8>)
    ensures
        first_key(h, k) matches Some(i) ==> key_at(h, k, i) && forall|j: int|
            0 <= j < i ==> !key_at(h, k, j),
        first_key(h, k) is None ==> forall|j: int| !key_at(h, k, j),
{
    reveal(first_key);
    if exists|i: int| key_at(h, k, i) {
        let i = choose|i: int| key_at(h, k, i);
        lemma_least_key(h, k, i);
    }
}

proof fn lemma_least_key(h: FieldsView, k: Seq<u8>, i: int)
    requires
        key_at(h, k, i),
    ensures
        exists|c: int| key_at(h, k, c) && forall|j: int| 0 <= j < c ==> !key_at(h, k, j),
    decreases i,
{
    if exists|j: int| 0 <= j < i && key_at(h, k, j) {
        let j = choose|j: int| 0 <= j < i && key_at(h, k, j);
        lemma_least_key(h, k, j);
    }
}

/// After binding `k` to `v`, looking `k` up gives `v`.
pub proof fn lemma_lookup_insert_same(h: FieldsView, k: Seq<u8>, v: Seq<u8>)
    ensures
        lookup(insert(h, k, v), k) == Some(v),
{
    lemma_first_key(h, k);
    let h2 = insert(h, k, v);
    match first_key(h, k) {
        Some(i) => {
            assert(key_at(h2, k, i));
            assert forall|j: int| 0 <= j < i implies !key_at(h2, k, j) by {
                assert(!key_at(h, k, j));
            }
            lemma_first_key_unique(h2, k, i);
        },
        None => {
            let n = h.len() as int;
            assert(key_at(h2, k, n));
            assert forall|j: int| 0 <= j < n implies !key_at(h2, k, j) by {
                assert(!key_at(h, k, j));
            }
            lemma_first_key_unique(h2, k, n);
        },
    }
}

/// Binding `k` leaves what other names look up unchanged.
pub proof fn lemma_lookup_insert_other(h: FieldsView, k: Seq<u8>, v: Seq<u8>, k2: Seq<u8>)
    requires
        k != k2,
    ensures
        lookup(insert(h, k, v), k2) == lookup(h, k2),
{
    lemma_first_key(h, k);
    lemma_first_key(h, k2);
    let h2 = insert(h, k, v);
    lemma_first_key(h2, k2);
    assert forall|j: int| key_at(h2, k2, j) <==> key_at(h, k2, j) by {
        if 0 <= j < h.len() {
            if first_key(h, k) == Some(j) {
                assert(h2[j].0 == k);
            }
        }
    }
    match first_key(h, k2) {
        Some(i) => {
            lemma_first_key_unique(h2, k2, i);
            assert(h2[i].1 == h[i].1);
        },
        None => {},
    }
}

pub fn bytes_eq(a: &[u8], b: &[u8]) -> (r: bool)
    ensures
        r == (a@ == b@),
{
    if a.len() != b.len() {
        return false;
    }
    let mut i: usize = 0;
    while i < a.len()
        invariant
            a@.len() == b@.len(),
            i <= a@.len(),
            forall|k: int| 0 <= k < i ==> a@[k] == b@[k],
        decreases a@.len() - i,
    {
        if a[i] != b[i] {
            return false;
        }
        i = i + 1;
    }
    assert(a@ =~= b@);
    true
}

/// No two entries share a name.
pub open spec fn unique_names(h: FieldsView) -> bool {
    forall|i: int, j: int| 0 <= i < h.len() && 0 <= j < h.len() && h[i].0 == h[j].0 ==> i == j
}

/// Binding a name keeps the names unique.
pub proof fn lemma_insert_unique(h: FieldsView, k: Seq<u8>, v: Seq<u8>)
    requires
        unique_names(h),
    ensures
        unique_names(insert(h, k, v)),
{
    lemma_first_key(h, k);
    let h2 = insert(h, k, v);
    match first_key(h, k) {
        Some(i) => {
            assert forall|a: int| 0 <= a < h2.len() implies h2[a].0 == h[a].0 by {}
        },
        None => {
            assert forall|a: int, c: int|
                0 <= a < h2.len() && 0 <= c < h2.len() && h2[a].0 == h2[c].0 implies a == c by {
                if a < h.len() && c == h.len() {
                    assert(key_at(h, k, a));
                } else if c < h.len() && a == h.len() {
                    assert(key_at(h, k, c));
                } else if a < h.len() && c < h.len() {
                    assert(h2[a] == h[a] && h2[c] == h[c]);
                }
            }
        },
    }
}

/// A map of names to values. The entries are reachable only through
/// `new` and `insert`, so no two of them share a name.
pub struct FieldMap {
    entries: Vec<(Vec<u8>, Vec<u8>)>,
}

impl View for FieldMap {
    type V = FieldsView;

    closed spec fn view(&self) -> FieldsView {
        Seq::new(self.entries@.len(), |i: int| (self.entries@[i].0@, self.entries@[i].1@))
    }
}

impl FieldMap {
    pub fn new() -> (r: FieldMap)
        ensures
            r@ == Seq::<(Seq<u8>, Seq<u8>)>::empty(),
            unique_names(r@),
    {
        let r = FieldMap { entries: Vec::new() };
        assert(r@ =~= Seq::<(Seq<u8>, Seq<u8>)>::empty());
        r
    }

    pub fn len(&self) -> (r: usize)
        ensures
            r == self@.len(),
    {
        self.entries.len()
    }

    /// Index of the entry named `k`.
    pub fn position(&self, k: &[u8]) -> (r: Option<usize>)
        ensures
            r matches Some(i) ==> i < self@.len() && key_at(self@, k@, i as int) && first_key(
                self@,
                k@,
            ) == Some(i as int),
            r is None ==> first_key(self@, k@) is None,
    {
        let mut i: usize = 0;
        while i < self.entries.len()
            invariant
                i <= self@.len(),
                forall|j: int| 0 <= j < i ==> !key_at(self@, k@, j),
            decreases self@.len() - i,
        {
            if bytes_eq(self.entries[i].0.as_slice(), k) {
                proof {
                    lemma_first_key_unique(self@, k@, i as int);
                }
                return Some(i);
            }
            i = i + 1;
        }
        proof {
            reveal(first_key);
        }
        None
    }

    /// The value stored under `k`.
    pub fn get(&self, k: &[u8]) -> (r: Option<&Vec<u8>>)
        ensures
            r matches Some(v) ==> lookup(self@, k@) == Some(v@),
            r is None ==> lookup(self@, k@) is None,
    {
        match self.position(k) {
            Some(i) => {
                assert(self@[i as int].1 == self.entries@[i as int].1@);
                Some(&self.entries[i].1)
            },
            None => None,
        }
    }

    pub fn contains_key(&self, k: &[u8]) -> (r: bool)
        ensures
            r == lookup(self@, k@) is Some,
    {
        match self.position(k) {
            Some(_) => true,
            None => false,
        }
    }

    /// Binds `k` to `v`; the last write wins.
    pub fn insert(&mut self, k: Vec<u8>, v: Vec<u8>)
        ensures
            final(self)@ == insert(old(self)@, k@, v@),
            unique_names(old(self)@) ==> unique_names(final(self)@),
    {
        proof {
            if unique_names(self@) {
                lemma_insert_unique(self@, k@, v@);
            }
        }
        let ghost kv = k@;
        let ghost vv = v@;
        match self.position(k.as_slice()) {
            Some(i) => {
                self.entries.set(i, (k, v));
                assert(self@ =~= insert(old(self)@, kv, vv));
            },
            None => {
                self.entries.push((k, v));
                assert(self@ =~= insert(old(self)@, kv, vv));
            },
        }
    }

    /// A copy of the map.
    pub fn duplicate(&self) -> (r: FieldMap)
        ensures
            r@ == self@,
    {
        let mut entries: Vec<(Vec<u8>, Vec<u8>)> = Vec::new();
        let mut i: usize = 0;
        while i < self.entries.len()
            invariant
                i <= self.entries@.len(),
                entries@.len() == i,
                forall|k: int|
                    0 <= k < i ==> (#[trigger] entries@[k]).0@ == self.entries@[k].0@
                        && entries@[k].1@ == self.entries@[k].1@,
            decreases self.entries@.len() - i,
        {
            let (k, v) = &self.entries[i];
            entries.push((crate::bytes::copy(k.as_slice()), crate::bytes::copy(v.as_slice())));
            i = i + 1;
        }
        let r = FieldMap { entries };
        assert(r@ =~= self@);
        r
    }

    /// The entries, in order.
    pub fn pairs(&self) -> (r: &Vec<(Vec<u8>, Vec<u8>)>)
        ensures
            r@.len() == self@.len(),
            forall|i: int| 0 <= i < r@.len() ==> (#[trigger] r@[i]).0@ == self@[i].0 && r@[i].1@ == self@[i].1,
    {
        &self.entries
    }

    /// Name and value of entry `i`.
    pub fn entry(&self, i: usize) -> (r: (&Vec<u8>, &Vec<u8>))
        requires
            i < self@.len(),
        ensures
            r.0@ == self@[i as int].0,
            r.1@ == self@[i as int].1,
    {
        (&self.entries[i].0, &self.entries[i].1)
    }
}

} // verus!
