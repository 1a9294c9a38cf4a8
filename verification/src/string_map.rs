use vstd::prelude::*;
use vstd::string::*;

use crate::text::str_equal;

verus! {

/// A finite map from strings to strings: the properties of a block and the
/// styles of a piece of inline text.
///
/// The entries are kept in the order in which their keys were first
/// inserted; a key occurs at most once.
#[derive(Debug)]
pub struct StringMap {
    entries: Vec<(String, String)>,
}

/// The entries of a map as plain values.
pub open spec fn pairs_of(entries: Seq<(String, String)>) -> Seq<(Seq<char>, Seq<char>)> {
    entries.map_values(|e: (String, String)| (e.0@, e.1@))
}

/// The value that `pairs` holds for `key`: the first entry with that key.
pub open spec fn lookup(pairs: Seq<(Seq<char>, Seq<char>)>, key: Seq<char>) -> Option<Seq<char>>
    decreases pairs.len(),
{
    if pairs.len() == 0 {
        None
    } else if pairs[0].0 == key {
        Some(pairs[0].1)
    } else {
        lookup(pairs.drop_first(), key)
    }
}

/// The entries after `key` is set to `value`: an existing entry is replaced
/// in place, a new key goes to the end.
pub open spec fn insert_pair(
    pairs: Seq<(Seq<char>, Seq<char>)>,
    key: Seq<char>,
    value: Seq<char>,
) -> Seq<(Seq<char>, Seq<char>)>
    decreases pairs.len(),
{
    if pairs.len() == 0 {
        seq![(key, value)]
    } else if pairs[0].0 == key {
        pairs.update(0, (key, value))
    } else {
        seq![pairs[0]] + insert_pair(pairs.drop_first(), key, value)
    }
}

/// No key occurs twice.
pub open spec fn keys_distinct(pairs: Seq<(Seq<char>, Seq<char>)>) -> bool {
    forall|i: int, j: int| 0 <= i < j < pairs.len() ==> pairs[i].0 != pairs[j].0
}

pub proof fn lemma_lookup_insert(
    pairs: Seq<(Seq<char>, Seq<char>)>,
    key: Seq<char>,
    value: Seq<char>,
    k: Seq<char>,
)
    ensures
        lookup(insert_pair(pairs, key, value), k) == (if k == key {
            Some(value)
        } else {
            lookup(pairs, k)
        }),
    decreases pairs.len(),
{
    if pairs.len() == 0 {
        let s = seq![(key, value)];
        assert(s.drop_first() =~= Seq::<(Seq<char>, Seq<char>)>::empty());
        assert(lookup(s.drop_first(), k) is None);
        assert(s[0].0 == key);
        assert(lookup(s, k) == (if k == key { Some(value) } else { lookup(pairs, k) }));
    } else if pairs[0].0 == key {
        let s = pairs.update(0, (key, value));
        assert(s.drop_first() =~= pairs.drop_first());
        assert(lookup(s, k) == (if k == key { Some(value) } else { lookup(pairs, k) }));
    } else {
        lemma_lookup_insert(pairs.drop_first(), key, value, k);
        let s = seq![pairs[0]] + insert_pair(pairs.drop_first(), key, value);
        assert(s.drop_first() =~= insert_pair(pairs.drop_first(), key, value));
        assert(s[0] == pairs[0]);
        assert(insert_pair(pairs, key, value) == s);
    }
}

pub proof fn lemma_lookup_none(pairs: Seq<(Seq<char>, Seq<char>)>, k: Seq<char>)
    ensures
        lookup(pairs, k) is None <==> (forall|i: int| 0 <= i < pairs.len() ==> pairs[i].0 != k),
    decreases pairs.len(),
{
    if pairs.len() > 0 {
        lemma_lookup_none(pairs.drop_first(), k);
        if lookup(pairs, k) is None {
            assert forall|i: int| 0 <= i < pairs.len() implies pairs[i].0 != k by {
                if i > 0 {
                    assert(pairs[i] == pairs.drop_first()[i - 1]);
                }
            }
        } else if pairs[0].0 != k {
            let j = choose|j: int| 0 <= j < pairs.drop_first().len() && pairs.drop_first()[j].0 == k;
            assert(pairs[j + 1].0 == k);
        }
    }
}

pub proof fn lemma_insert_keys_distinct(
    pairs: Seq<(Seq<char>, Seq<char>)>,
    key: Seq<char>,
    value: Seq<char>,
)
    requires
        keys_distinct(pairs),
    ensures
        keys_distinct(insert_pair(pairs, key, value)),
        insert_pair(pairs, key, value).len() == pairs.len() + (if lookup(pairs, key) is Some {
            0int
        } else {
            1int
        }),
    decreases pairs.len(),
{
    if pairs.len() == 0 {
    } else if pairs[0].0 == key {
    } else {
        let rest = pairs.drop_first();
        lemma_insert_keys_distinct(rest, key, value);
        let r = insert_pair(rest, key, value);
        assert forall|j: int| 0 <= j < r.len() implies r[j].0 != pairs[0].0 by {
            lemma_lookup_none(rest, pairs[0].0);
            if r[j].0 == pairs[0].0 {
                lemma_insert_members(rest, key, value, j);
            }
        }
        let s = seq![pairs[0]] + r;
        assert forall|i: int, j: int| 0 <= i < j < s.len() implies s[i].0 != s[j].0 by {
            if i > 0 {
                assert(s[i] == r[i - 1]);
            }
            assert(s[j] == r[j - 1]);
        }
    }
}

proof fn lemma_insert_members(
    pairs: Seq<(Seq<char>, Seq<char>)>,
    key: Seq<char>,
    value: Seq<char>,
    j: int,
)
    requires
        0 <= j < insert_pair(pairs, key, value).len(),
    ensures
        insert_pair(pairs, key, value)[j].0 == key || exists|i: int|
            0 <= i < pairs.len() && pairs[i].0 == insert_pair(pairs, key, value)[j].0,
    decreases pairs.len(),
{
    if pairs.len() == 0 {
    } else if pairs[0].0 == key {
        if j > 0 {
            assert(pairs[j].0 == insert_pair(pairs, key, value)[j].0);
        }
    } else if j > 0 {
        lemma_insert_members(pairs.drop_first(), key, value, j - 1);
        let r = insert_pair(pairs.drop_first(), key, value);
        assert(insert_pair(pairs, key, value)[j] == r[j - 1]);
        if r[j - 1].0 != key {
            let i = choose|i: int|
                0 <= i < pairs.drop_first().len() && pairs.drop_first()[i].0 == r[j - 1].0;
            assert(pairs[i + 1].0 == r[j - 1].0);
        }
    } else {
        assert(pairs[0].0 == insert_pair(pairs, key, value)[0].0);
    }
}

impl StringMap {
    /// The entries, in order, as plain values.
    pub closed spec fn pairs(&self) -> Seq<(Seq<char>, Seq<char>)> {
        pairs_of(self.entries@)
    }

    /// A map holds each key once.
    pub closed spec fn wf(&self) -> bool {
        keys_distinct(self.pairs())
    }

    pub open spec fn spec_get(&self, key: Seq<char>) -> Option<Seq<char>> {
        lookup(self.pairs(), key)
    }

    pub proof fn lemma_wf(&self)
        ensures
            self.wf() ==> keys_distinct(self.pairs()),
    {
    }

    /// An empty map.
    pub fn new() -> (m: StringMap)
        ensures
            m.pairs() == Seq::<(Seq<char>, Seq<char>)>::empty(),
            m.wf(),
    {
        let m = StringMap { entries: Vec::new() };
        assert(m.pairs() =~= Seq::<(Seq<char>, Seq<char>)>::empty());
        m
    }

    /// The number of entries.
    pub fn len(&self) -> (n: usize)
        ensures
            n == self.pairs().len(),
    {
        self.entries.len()
    }

    /// Whether the map holds no entry.
    pub fn is_empty(&self) -> (b: bool)
        ensures
            b == (self.pairs().len() == 0),
    {
        self.entries.len() == 0
    }

    /// The key of the entry at position `i`.
    pub fn key_at(&self, i: usize) -> (k: &String)
        requires
            i < self.pairs().len(),
        ensures
            k@ == self.pairs()[i as int].0,
    {
        &self.entries[i].0
    }

    /// The value of the entry at position `i`.
    pub fn value_at(&self, i: usize) -> (v: &String)
        requires
            i < self.pairs().len(),
        ensures
            v@ == self.pairs()[i as int].1,
    {
        &self.entries[i].1
    }

    fn position(&self, key: &str) -> (r: Option<usize>)
        ensures
            match r {
                Some(i) => i < self.pairs().len() && self.pairs()[i as int].0 == key@ && lookup(
                    self.pairs(),
                    key@,
                ) == Some(self.pairs()[i as int].1) && (forall|j: int|
                    0 <= j < i ==> self.pairs()[j].0 != key@),
                None => lookup(self.pairs(), key@) is None,
            },
    {
        let n = self.entries.len();
        let mut i: usize = 0;
        while i < n
            invariant
                n == self.pairs().len(),
                i <= n,
                forall|j: int| 0 <= j < i ==> self.pairs()[j].0 != key@,
            decreases n - i,
        {
            if str_equal(self.entries[i].0.as_str(), key) {
                proof {
                    lemma_lookup_prefix(self.pairs(), key@, i as int);
                }
                return Some(i);
            }
            i = i + 1;
        }
        proof {
            lemma_lookup_none(self.pairs(), key@);
        }
        None
    }

    /// The value stored for `key`, if any.
    pub fn get(&self, key: &str) -> (r: Option<&String>)
        ensures
            match r {
                Some(v) => self.spec_get(key@) == Some(v@),
                None => self.spec_get(key@) is None,
            },
    {
        match self.position(key) {
            Some(i) => Some(&self.entries[i].1),
            None => None,
        }
    }

    /// Whether the map holds `key`.
    pub fn contains_key(&self, key: &str) -> (b: bool)
        ensures
            b == self.spec_get(key@) is Some,
    {
        self.position(key).is_some()
    }

    /// Sets `key` to `value`.
    pub fn insert(&mut self, key: String, value: String)
        ensures
            final(self).pairs() == insert_pair(old(self).pairs(), key@, value@),
            old(self).wf() ==> final(self).wf(),
    {
        proof {
            if old(self).wf() {
                lemma_insert_keys_distinct(old(self).pairs(), key@, value@);
            }
        }
        match self.position(key.as_str()) {
            Some(i) => {
                proof {
                    lemma_insert_at(self.pairs(), key@, value@, i as int);
                }
                self.entries.set(i, (key, value));
                assert(self.pairs() =~= insert_pair(old(self).pairs(), key@, value@));
            },
            None => {
                proof {
                    lemma_lookup_none(self.pairs(), key@);
                    lemma_insert_absent(self.pairs(), key@, value@);
                }
                self.entries.push((key, value));
                assert(self.pairs() =~= insert_pair(old(self).pairs(), key@, value@));
            },
        }
    }

    /// A copy of the map.
    pub fn duplicate(&self) -> (m: StringMap)
        ensures
            m.pairs() == self.pairs(),
            self.wf() ==> m.wf(),
    {
        let mut entries: Vec<(String, String)> = Vec::new();
        let n = self.entries.len();
        let mut i: usize = 0;
        while i < n
            invariant
                n == self.entries@.len(),
                i <= n,
                pairs_of(entries@) =~= pairs_of(self.entries@.take(i as int)),
            decreases n - i,
        {
            let k = self.entries[i].0.clone();
            let v = self.entries[i].1.clone();
            let ghost prev = entries@;
            entries.push((k, v));
            proof {
                assert(entries@ =~= prev.push((k, v)));
                assert(self.entries@.take(i + 1) =~= self.entries@.take(i as int).push(self.entries@[i as int]));
                assert(pairs_of(entries@) =~= pairs_of(prev).push((k@, v@)));
                assert(pairs_of(self.entries@.take(i + 1)) =~= pairs_of(self.entries@.take(i as int)).push((k@, v@)));
            }
            i = i + 1;
        }
        assert(self.entries@.take(n as int) =~= self.entries@);
        StringMap { entries }
    }
}

proof fn lemma_lookup_prefix(pairs: Seq<(Seq<char>, Seq<char>)>, key: Seq<char>, i: int)
    requires
        0 <= i < pairs.len(),
        pairs[i].0 == key,
        forall|j: int| 0 <= j < i ==> pairs[j].0 != key,
    ensures
        lookup(pairs, key) == Some(pairs[i].1),
    decreases i,
{
    if i > 0 {
        lemma_lookup_prefix(pairs.drop_first(), key, i - 1);
    }
}

proof fn lemma_insert_at(
    pairs: Seq<(Seq<char>, Seq<char>)>,
    key: Seq<char>,
    value: Seq<char>,
    i: int,
)
    requires
        0 <= i < pairs.len(),
        pairs[i].0 == key,
        forall|j: int| 0 <= j < i ==> pairs[j].0 != key,
    ensures
        insert_pair(pairs, key, value) =~= pairs.update(i, (key, value)),
    decreases i,
{
    if i > 0 {
        lemma_insert_at(pairs.drop_first(), key, value, i - 1);
        assert(pairs.update(i, (key, value)) =~= seq![pairs[0]] + pairs.drop_first().update(
            i - 1,
            (key, value),
        ));
    }
}

pub proof fn lemma_insert_absent(pairs: Seq<(Seq<char>, Seq<char>)>, key: Seq<char>, value: Seq<char>)
    requires
        forall|j: int| 0 <= j < pairs.len() ==> pairs[j].0 != key,
    ensures
        insert_pair(pairs, key, value) =~= pairs.push((key, value)),
    decreases pairs.len(),
{
    if pairs.len() > 0 {
        lemma_insert_absent(pairs.drop_first(), key, value);
        assert(pairs.push((key, value)) =~= seq![pairs[0]] + pairs.drop_first().push((key, value)));
    }
}

} // verus!
