//! The key/value store: an in-memory snapshot of label → password pairs,
//! the capability trait over store backings, and the model-level laws that
//! every backing obeys.

use vstd::prelude::*;

verus! {

use crate::StoreError;

/// No key occurs twice.
pub open spec fn unique_keys(es: Seq<(Seq<char>, Seq<char>)>) -> bool {
    forall|i: int, j: int| 0 <= i < j < es.len() ==> es[i].0 != es[j].0
}

/// The value stored under `key`: the first pair that carries it.
pub open spec fn spec_lookup(es: Seq<(Seq<char>, Seq<char>)>, key: Seq<char>) -> Option<
    Seq<char>,
>
    decreases es.len(),
{
    if es.len() == 0 {
        None
    } else if es[0].0 == key {
        Some(es[0].1)
    } else {
        spec_lookup(es.drop_first(), key)
    }
}

/// The snapshot after `set(key, value)`: the pair replaced in place when the
/// key is present, appended otherwise.
pub open spec fn spec_update(
    es: Seq<(Seq<char>, Seq<char>)>,
    key: Seq<char>,
    value: Seq<char>,
) -> Seq<(Seq<char>, Seq<char>)>
    decreases es.len(),
{
    if es.len() == 0 {
        seq![(key, value)]
    } else if es[0].0 == key {
        seq![(key, value)] + es.drop_first()
    } else {
        seq![es[0]] + spec_update(es.drop_first(), key, value)
    }
}

/// Law: a `get` immediately after `set(key, value)` on the same snapshot
/// yields `Some(value)`, whatever was stored before.
pub proof fn lemma_set_then_get(
    es: Seq<(Seq<char>, Seq<char>)>,
    key: Seq<char>,
    value: Seq<char>,
)
    ensures
        spec_lookup(spec_update(es, key, value), key) == Some(value),
    decreases es.len(),
{
    if es.len() == 0 {
        assert(spec_update(es, key, value) == seq![(key, value)]);
    } else if es[0].0 == key {
        assert(spec_update(es, key, value)[0] == (key, value));
    } else {
        lemma_set_then_get(es.drop_first(), key, value);
        assert(spec_update(es, key, value)[0] == es[0]);
        assert(spec_update(es, key, value).drop_first() =~= spec_update(
            es.drop_first(),
            key,
            value,
        ));
    }
}

/// Law: `set(key, value)` leaves every other key's value alone.
pub proof fn lemma_set_keeps_others(
    es: Seq<(Seq<char>, Seq<char>)>,
    key: Seq<char>,
    value: Seq<char>,
    other: Seq<char>,
)
    requires
        other != key,
    ensures
        spec_lookup(spec_update(es, key, value), other) == spec_lookup(es, other),
    decreases es.len(),
{
    if es.len() == 0 {
        let up = spec_update(es, key, value);
        assert(up == seq![(key, value)]);
        assert(up[0].0 == key);
        assert(up.drop_first() =~= Seq::<(Seq<char>, Seq<char>)>::empty());
        assert(spec_lookup(up, other) == spec_lookup(up.drop_first(), other));
    } else if es[0].0 == key {
        assert(spec_update(es, key, value)[0] == (key, value));
        assert(spec_update(es, key, value).drop_first() =~= es.drop_first());
    } else {
        lemma_set_keeps_others(es.drop_first(), key, value, other);
        assert(spec_update(es, key, value)[0] == es[0]);
        assert(spec_update(es, key, value).drop_first() =~= spec_update(
            es.drop_first(),
            key,
            value,
        ));
    }
}

/// Law: a key under which nothing was ever set is absent, and that is not an
/// error: its lookup is simply `None`.
pub proof fn lemma_unwritten_key_is_none(es: Seq<(Seq<char>, Seq<char>)>, key: Seq<char>)
    requires
        forall|j: int| 0 <= j < es.len() ==> es[j].0 != key,
    ensures
        spec_lookup(es, key) is None,
    decreases es.len(),
{
    if es.len() > 0 {
        assert(es[0].0 != key);
        assert(forall|j: int|
            0 <= j < es.drop_first().len() ==> es.drop_first()[j] == es[j + 1]);
        lemma_unwritten_key_is_none(es.drop_first(), key);
    }
}

pub proof fn lemma_lookup_at_index(es: Seq<(Seq<char>, Seq<char>)>, i: int, key: Seq<char>)
    requires
        0 <= i < es.len(),
        es[i].0 == key,
        forall|j: int| 0 <= j < i ==> es[j].0 != key,
    ensures
        spec_lookup(es, key) == Some(es[i].1),
    decreases i,
{
    if i > 0 {
        assert(forall|j: int|
            0 <= j < es.drop_first().len() ==> es.drop_first()[j] == es[j + 1]);
        lemma_lookup_at_index(es.drop_first(), i - 1, key);
    }
}

pub proof fn lemma_update_at_index(
    es: Seq<(Seq<char>, Seq<char>)>,
    i: int,
    key: Seq<char>,
    value: Seq<char>,
)
    requires
        0 <= i < es.len(),
        es[i].0 == key,
        forall|j: int| 0 <= j < i ==> es[j].0 != key,
    ensures
        spec_update(es, key, value) == es.update(i, (key, value)),
    decreases i,
{
    if i == 0 {
        assert(spec_update(es, key, value) =~= es.update(0, (key, value)));
    } else {
        assert(forall|j: int|
            0 <= j < es.drop_first().len() ==> es.drop_first()[j] == es[j + 1]);
        lemma_update_at_index(es.drop_first(), i - 1, key, value);
        assert(spec_update(es, key, value) =~= es.update(i, (key, value)));
    }
}

pub proof fn lemma_update_appends(
    es: Seq<(Seq<char>, Seq<char>)>,
    key: Seq<char>,
    value: Seq<char>,
)
    requires
        forall|j: int| 0 <= j < es.len() ==> es[j].0 != key,
    ensures
        spec_update(es, key, value) == es.push((key, value)),
    decreases es.len(),
{
    if es.len() == 0 {
        assert(spec_update(es, key, value) =~= es.push((key, value)));
    } else {
        assert(forall|j: int|
            0 <= j < es.drop_first().len() ==> es.drop_first()[j] == es[j + 1]);
        lemma_update_appends(es.drop_first(), key, value);
        assert(spec_update(es, key, value) =~= es.push((key, value)));
    }
}

pub proof fn lemma_update_keeps_unique(
    es: Seq<(Seq<char>, Seq<char>)>,
    key: Seq<char>,
    value: Seq<char>,
)
    requires
        unique_keys(es),
    ensures
        unique_keys(spec_update(es, key, value)),
{
    if exists|i: int| 0 <= i < es.len() && es[i].0 == key {
        let i = choose|i: int|
            0 <= i < es.len() && es[i].0 == key && forall|j: int|
                0 <= j < i ==> es[j].0 != key;
        assert(exists|i: int|
            0 <= i < es.len() && es[i].0 == key && forall|j: int|
                0 <= j < i ==> es[j].0 != key) by {
            let w = choose|i: int| 0 <= i < es.len() && es[i].0 == key;
            first_key_occurrence(es, key, w);
        }
        lemma_update_at_index(es, i, key, value);
        assert(unique_keys(es.update(i, (key, value))));
    } else {
        lemma_update_appends(es, key, value);
        assert(unique_keys(es.push((key, value))));
    }
}

proof fn first_key_occurrence(es: Seq<(Seq<char>, Seq<char>)>, key: Seq<char>, w: int)
    requires
        0 <= w < es.len(),
        es[w].0 == key,
    ensures
        exists|i: int|
            0 <= i < es.len() && es[i].0 == key && forall|j: int|
                0 <= j < i ==> es[j].0 != key,
    decreases w,
{
    if forall|j: int| 0 <= j < w ==> es[j].0 != key {
        assert(0 <= w < es.len() && es[w].0 == key && forall|j: int|
            0 <= j < w ==> es[j].0 != key);
    } else {
        let w2 = choose|j: int| 0 <= j < w && es[j].0 == key;
        first_key_occurrence(es, key, w2);
    }
}

/// Law: starting from an empty store, three `set`s under pairwise distinct
/// keys leave exactly those three pairs, in insertion order; the values the
/// store then holds are exactly the three that were written.
pub proof fn lemma_three_distinct_sets(
    k1: Seq<char>,
    v1: Seq<char>,
    k2: Seq<char>,
    v2: Seq<char>,
    k3: Seq<char>,
    v3: Seq<char>,
)
    requires
        k1 != k2,
        k1 != k3,
        k2 != k3,
    ensures
        spec_update(
            spec_update(spec_update(Seq::empty(), k1, v1), k2, v2),
            k3,
            v3,
        ) =~= seq![(k1, v1), (k2, v2), (k3, v3)],
{
    let e0: Seq<(Seq<char>, Seq<char>)> = Seq::empty();
    let e1 = spec_update(e0, k1, v1);
    assert(e1 =~= seq![(k1, v1)]);
    lemma_update_appends(e1, k2, v2);
    let e2 = spec_update(e1, k2, v2);
    assert(e2 =~= seq![(k1, v1), (k2, v2)]);
    lemma_update_appends(e2, k3, v3);
    assert(spec_update(e2, k3, v3) =~= seq![(k1, v1), (k2, v2), (k3, v3)]);
}

/// The pairs as the model sees them: each `String` replaced by its characters.
pub open spec fn entries_view(d: Seq<(String, String)>) -> Seq<(Seq<char>, Seq<char>)> {
    d.map_values(|e: (String, String)| (e.0@, e.1@))
}

/// An in-memory snapshot of the store: label → password pairs, keys unique.
pub struct StoreMap {
    entries: Vec<(String, String)>,
}

impl View for StoreMap {
    type V = Seq<(Seq<char>, Seq<char>)>;

    closed spec fn view(&self) -> Seq<(Seq<char>, Seq<char>)> {
        entries_view(self.entries@)
    }
}

impl StoreMap {
    pub open spec fn wf(&self) -> bool {
        unique_keys(self@)
    }

    /// The empty store.
    pub fn new() -> (r: StoreMap)
        ensures
            r@ == Seq::<(Seq<char>, Seq<char>)>::empty(),
            r.wf(),
    {
        let r = StoreMap { entries: Vec::new() };
        proof {
            assert(r@ =~= Seq::<(Seq<char>, Seq<char>)>::empty());
        }
        r
    }

    /// The position of `key` among the entries, with everything before it
    /// carrying some other key.
    fn index_of_key(&self, key: &String) -> (r: Option<usize>)
        ensures
            match r {
                Some(i) => i < self@.len() && self@[i as int].0 == key@ && forall|j: int|
                    0 <= j < i ==> self@[j].0 != key@,
                None => forall|j: int| 0 <= j < self@.len() ==> self@[j].0 != key@,
            },
    {
        let n = self.entries.len();
        let mut i: usize = 0;
        while i < n
            invariant
                n == self.entries.len(),
                i <= n,
                self@.len() == n,
                forall|j: int| 0 <= j < i ==> self@[j].0 != key@,
            decreases n - i,
        {
            if self.entries[i].0 == *key {
                return Some(i);
            }
            i = i + 1;
        }
        None
    }

    /// Insert or overwrite: afterwards the snapshot is exactly
    /// `spec_update(old snapshot, key, value)`.
    pub fn set_entry(&mut self, key: String, value: String)
        requires
            old(self).wf(),
        ensures
            final(self).wf(),
            final(self)@ == spec_update(old(self)@, key@, value@),
    {
        proof {
            lemma_update_keeps_unique(self@, key@, value@);
        }
        match self.index_of_key(&key) {
            Some(i) => {
                proof {
                    lemma_update_at_index(self@, i as int, key@, value@);
                }
                let _ = self.entries.remove(i);
                self.entries.insert(i, (key, value));
                proof {
                    assert(final(self)@ =~= spec_update(old(self)@, key@, value@));
                }
            },
            None => {
                proof {
                    lemma_update_appends(self@, key@, value@);
                }
                self.entries.push((key, value));
                proof {
                    assert(final(self)@ =~= spec_update(old(self)@, key@, value@));
                }
            },
        }
    }

    /// The value under `key`, if any; absence is no error.
    pub fn get_entry(&self, key: &String) -> (r: Option<String>)
        ensures
            match r {
                Some(v) => spec_lookup(self@, key@) == Some(v@),
                None => spec_lookup(self@, key@) is None,
            },
    {
        match self.index_of_key(key) {
            Some(i) => {
                proof {
                    lemma_lookup_at_index(self@, i as int, key@);
                }
                Some(self.entries[i].1.clone())
            },
            None => {
                proof {
                    lemma_unwritten_key_is_none(self@, key@);
                }
                None
            },
        }
    }

    /// Every stored value, in entry order.
    pub fn values(&self) -> (r: Vec<String>)
        ensures
            r@.len() == self@.len(),
            forall|i: int| 0 <= i < r@.len() ==> r@[i]@ == self@[i].1,
    {
        let n = self.entries.len();
        let mut out: Vec<String> = Vec::new();
        let mut i: usize = 0;
        while i < n
            invariant
                n == self.entries.len(),
                i <= n,
                self@.len() == n,
                out@.len() == i,
                forall|j: int| 0 <= j < i ==> out@[j]@ == self@[j].1,
            decreases n - i,
        {
            out.push(self.entries[i].1.clone());
            i = i + 1;
        }
        out
    }

    pub fn len(&self) -> (r: usize)
        ensures
            r == self@.len(),
    {
        self.entries.len()
    }

    pub fn key_at(&self, i: usize) -> (r: &String)
        requires
            i < self@.len(),
        ensures
            r@ == self@[i as int].0,
    {
        &self.entries[i].0
    }

    pub fn value_at(&self, i: usize) -> (r: &String)
        requires
            i < self@.len(),
        ensures
            r@ == self@[i as int].1,
    {
        &self.entries[i].1
    }

    /// A store holding exactly the given pairs, in order.
    pub fn from_entries(entries: Vec<(String, String)>) -> (r: StoreMap)
        ensures
            r@ == entries_view(entries@),
    {
        StoreMap { entries }
    }
}

/// What every store backing offers: set, get one, get all values. A backing
/// may fail (a file may be unreadable); what it returns on success is pinned
/// to its snapshot.
pub trait Storage {
    spec fn snapshot(&self) -> Seq<(Seq<char>, Seq<char>)>;

    spec fn inv(&self) -> bool;

    /// Insert or overwrite one pair.
    fn set(&mut self, key: String, value: String) -> (r: Result<(), StoreError>)
        requires
            old(self).inv(),
        ensures
            final(self).inv(),
            r is Ok ==> final(self).snapshot() == spec_update(
                old(self).snapshot(),
                key@,
                value@,
            ),
    ;

    /// The value under `key`; `None` when the key was never written.
    fn get(&self, key: String) -> (r: Result<Option<String>, StoreError>)
        requires
            self.inv(),
        ensures
            match r {
                Ok(Some(v)) => spec_lookup(self.snapshot(), key@) == Some(v@),
                Ok(None) => spec_lookup(self.snapshot(), key@) is None,
                Err(_) => true,
            },
    ;

    /// All stored values; `None` when the store is empty.
    fn get_all(&self) -> (r: Result<Option<Vec<String>>, StoreError>)
        requires
            self.inv(),
        ensures
            match r {
                Ok(None) => self.snapshot().len() == 0,
                Ok(Some(vs)) => self.snapshot().len() > 0 && vs@.len() == self.snapshot().len()
                    && forall|i: int| 0 <= i < vs@.len() ==> vs@[i]@ == self.snapshot()[i].1,
                Err(_) => true,
            },
    ;
}

impl Storage for StoreMap {
    open spec fn snapshot(&self) -> Seq<(Seq<char>, Seq<char>)> {
        self@
    }

    open spec fn inv(&self) -> bool {
        self.wf()
    }

    /// In memory nothing can fail: always `Ok`, and the snapshot is updated.
    fn set(&mut self, key: String, value: String) -> (r: Result<(), StoreError>)
        ensures
            r is Ok,
    {
        self.set_entry(key, value);
        Ok(())
    }

    /// Always `Ok`: absence of a key is `Ok(None)`, never an error.
    fn get(&self, key: String) -> (r: Result<Option<String>, StoreError>)
        ensures
            r is Ok,
    {
        Ok(self.get_entry(&key))
    }

    /// Always `Ok`; `Ok(None)` exactly on the empty store.
    fn get_all(&self) -> (r: Result<Option<Vec<String>>, StoreError>)
        ensures
            r is Ok,
    {
        if self.len() == 0 {
            Ok(None)
        } else {
            Ok(Some(self.values()))
        }
    }
}

} // verus!
