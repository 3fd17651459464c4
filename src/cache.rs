use sha2::{Digest, Sha256};
use vstd::prelude::*;

verus! {

/// The SHA-256 digest of a text's UTF-8 bytes, in upper-case hexadecimal.
pub uninterp spec fn sha256_upper_hex(s: Seq<char>) -> Seq<char>;

/// What a cache with contents `m` holds for the message `msg`.
pub open spec fn cached<V>(m: Map<Seq<char>, V>, msg: Seq<char>) -> Option<V> {
    let k = sha256_upper_hex(msg);
    if m.contains_key(k) {
        Some(m[k])
    } else {
        None
    }
}

/// The contents that a list of `(key, value)` entries gives; a later entry wins.
pub open spec fn entries_map<V>(e: Seq<(String, V)>) -> Map<Seq<char>, V>
    decreases e.len(),
{
    if e.len() == 0 {
        Map::empty()
    } else {
        entries_map(e.drop_last()).insert(e.last().0@, e.last().1)
    }
}

/// A store of values computed for messages, keyed by the digest of the message.
pub struct Cache<V> {
    keys: Vec<String>,
    values: Vec<V>,
}

impl<V> View for Cache<V> {
    type V = Map<Seq<char>, V>;

    closed spec fn view(&self) -> Map<Seq<char>, V> {
        Map::new(
            |k: Seq<char>| exists|i: int| 0 <= i < self.keys@.len() && self.keys@[i]@ == k,
            |k: Seq<char>| self.values@[choose|i: int| 0 <= i < self.keys@.len() && self.keys@[i]@ == k],
        )
    }
}

impl<V: Copy> Cache<V> {
    /// The cache's invariant: one value per key, and no key twice.
    pub closed spec fn wf(&self) -> bool {
        &&& self.keys@.len() == self.values@.len()
        &&& forall|i: int, j: int| 0 <= i < j < self.keys@.len() ==> self.keys@[i]@ != self.keys@[j]@
    }

    /// An empty cache.
    pub fn new() -> (r: Self)
        ensures
            r.wf(),
            r@ == Map::<Seq<char>, V>::empty(),
    {
        let r = Cache { keys: Vec::new(), values: Vec::new() };
        assert(r@ =~= Map::<Seq<char>, V>::empty());
        r
    }

    /// Relies on `sha2::Sha256` and on the upper-case hex formatting of its
    /// digest: the key of a message is a function of its text alone.
    #[verifier::external_body]
    fn hash_string(&self, string: &String) -> (r: String)
        ensures
            r@ == sha256_upper_hex(string@),
    {
        format!("{:X}", Sha256::digest(string.as_bytes()))
    }

    fn find_key(&self, key: &String) -> (r: Option<usize>)
        requires
            self.wf(),
        ensures
            match r {
                Some(i) => i < self.keys@.len() && self.keys@[i as int]@ == key@ && self@.contains_key(key@)
                    && self@[key@] == self.values@[i as int],
                None => !self@.contains_key(key@),
            },
    {
        let n = self.keys.len();
        let mut i: usize = 0;
        while i < n
            invariant
                self.wf(),
                n == self.keys@.len(),
                i <= n,
                forall|j: int| 0 <= j < i ==> self.keys@[j]@ != key@,
            decreases n - i,
        {
            if self.keys[i] == *key {
                proof {
                    assert(self@.contains_key(key@));
                    let k = choose|j: int| 0 <= j < self.keys@.len() && self.keys@[j]@ == key@;
                    if k != i as int {
                        if k < i {
                            assert(self.keys@[k]@ != self.keys@[i as int]@);
                        } else {
                            assert(self.keys@[i as int]@ != self.keys@[k]@);
                        }
                    }
                }
                return Some(i);
            }
            i = i + 1;
        }
        None
    }

    /// The value stored under the digest `key`, if any.
    pub fn get_hashed(&self, key: &String) -> (r: Option<V>)
        requires
            self.wf(),
        ensures
            r == (if self@.contains_key(key@) { Some(self@[key@]) } else { None }),
    {
        match self.find_key(key) {
            Some(i) => Some(self.values[i]),
            None => None,
        }
    }

    /// Stores `value` under the digest `key`, replacing what was there.
    pub fn put_hashed(&mut self, key: String, value: V)
        requires
            old(self).wf(),
        ensures
            final(self).wf(),
            final(self)@ == old(self)@.insert(key@, value),
    {
        let ghost m0 = self@;
        let ghost k0 = self.keys@;
        match self.find_key(&key) {
            Some(i) => {
                self.values.set(i, value);
                proof {
                    assert forall|k: Seq<char>| #[trigger] self@.contains_key(k) == m0.insert(key@, value).contains_key(k)
                        by {}
                    assert forall|k: Seq<char>| self@.contains_key(k) implies #[trigger] self@[k] == m0.insert(key@, value)[k]
                        by {
                        if k != key@ {
                            let j = choose|j: int| 0 <= j < self.keys@.len() && self.keys@[j]@ == k;
                            assert(j != i);
                        } else {
                            let j = choose|j: int| 0 <= j < self.keys@.len() && self.keys@[j]@ == k;
                            if j != i as int {
                                if j < i {
                                    assert(self.keys@[j]@ != self.keys@[i as int]@);
                                } else {
                                    assert(self.keys@[i as int]@ != self.keys@[j]@);
                                }
                            }
                        }
                    }
                    assert(self@ =~= m0.insert(key@, value));
                }
            },
            None => {
                let ghost n = self.keys@.len();
                self.keys.push(key);
                self.values.push(value);
                proof {
                    assert(self.keys@[n as int]@ == key@);
                    assert forall|k: Seq<char>| #[trigger] self@.contains_key(k) == m0.insert(key@, value).contains_key(k)
                        by {
                        if m0.contains_key(k) {
                            let j = choose|j: int| 0 <= j < k0.len() && k0[j]@ == k;
                            assert(self.keys@[j]@ == k);
                        }
                    }
                    assert forall|k: Seq<char>| self@.contains_key(k) implies #[trigger] self@[k] == m0.insert(key@, value)[k]
                        by {
                        let j = choose|j: int| 0 <= j < self.keys@.len() && self.keys@[j]@ == k;
                        if k != key@ {
                            let j0 = choose|j: int| 0 <= j < k0.len() && k0[j]@ == k;
                            assert(self.keys@[j0]@ == k);
                            if j != j0 {
                                if j < j0 {
                                    assert(self.keys@[j]@ != self.keys@[j0]@);
                                } else {
                                    assert(self.keys@[j0]@ != self.keys@[j]@);
                                }
                            }
                        } else {
                            assert(j == n);
                        }
                    }
                    assert(self@ =~= m0.insert(key@, value));
                }
            },
        }
    }

    /// The scores stored for `string`, if any.
    pub fn get_from_cache(&self, string: &String) -> (r: Option<V>)
        requires
            self.wf(),
        ensures
            r == cached(self@, string@),
    {
        let hashed_string = self.hash_string(string);
        self.get_hashed(&hashed_string)
    }

    /// Stores `probs` for `string`, replacing what was stored for it.
    pub fn add_to_cache(&mut self, string: &String, probs: V)
        requires
            old(self).wf(),
        ensures
            final(self).wf(),
            final(self)@ == old(self)@.insert(sha256_upper_hex(string@), probs),
    {
        let hashed_string = self.hash_string(string);
        self.put_hashed(hashed_string, probs);
    }
    /// A cache holding the given `(digest, value)` entries; a later entry wins.
    pub fn from_entries(entries: Vec<(String, V)>) -> (r: Self)
        ensures
            r.wf(),
            r@ == entries_map(entries@),
    {
        let mut r = Cache::new();
        let n = entries.len();
        let mut i: usize = 0;
        while i < n
            invariant
                r.wf(),
                n == entries@.len(),
                i <= n,
                r@ == entries_map(entries@.take(i as int)),
            decreases n - i,
        {
            let key = entries[i].0.clone();
            let value = entries[i].1;
            assert(entries@.take(i + 1).drop_last() =~= entries@.take(i as int));
            r.put_hashed(key, value);
            i = i + 1;
        }
        assert(entries@.take(n as int) =~= entries@);
        r
    }

    /// The cache's `(digest, value)` entries, each key once.
    pub fn entries(&self) -> (r: Vec<(String, V)>)
        requires
            self.wf(),
        ensures
            entries_map(r@) == self@,
    {
        let mut out: Vec<(String, V)> = Vec::new();
        let n = self.keys.len();
        let mut i: usize = 0;
        while i < n
            invariant
                self.wf(),
                n == self.keys@.len(),
                i <= n,
                out@.len() == i,
                forall|k: Seq<char>| #[trigger] entries_map(out@).contains_key(k)
                    <==> exists|j: int| 0 <= j < i && self.keys@[j]@ == k,
                forall|j: int| 0 <= j < i ==> #[trigger] entries_map(out@)[self.keys@[j]@] == self.values@[j],
            decreases n - i,
        {
            let key = self.keys[i].clone();
            let value = self.values[i];
            let ghost before = out@;
            out.push((key, value));
            proof {
                assert(out@.drop_last() =~= before);
                assert(key@ == self.keys@[i as int]@);
                assert(entries_map(out@) == entries_map(before).insert(key@, value));
                assert forall|k: Seq<char>| #[trigger] entries_map(out@).contains_key(k)
                    <==> exists|j: int| 0 <= j < i + 1 && self.keys@[j]@ == k by {
                    if k == key@ {
                        assert(self.keys@[i as int]@ == k);
                    }
                }
                assert forall|j: int| 0 <= j < i + 1 implies #[trigger] entries_map(out@)[self.keys@[j]@] == self.values@[j] by {
                    if j < i {
                        assert(self.keys@[j]@ != self.keys@[i as int]@);
                    }
                }
            }
            i = i + 1;
        }
        assert(entries_map(out@) =~= self@);
        out
    }
}

/// A value put for a message is what a lookup of that message returns, and
/// lookups of messages with another digest are not affected.
pub proof fn lemma_put_then_get<V>(m: Map<Seq<char>, V>, msg: Seq<char>, v: V, other: Seq<char>)
    ensures
        cached(m.insert(sha256_upper_hex(msg), v), msg) == Some(v),
        sha256_upper_hex(other) != sha256_upper_hex(msg) ==> cached(
            m.insert(sha256_upper_hex(msg), v),
            other,
        ) == cached(m, other),
{
}

/// A new cache holds nothing for any message.
pub proof fn lemma_new_cache_holds_nothing<V>(msg: Seq<char>)
    ensures
        cached(Map::<Seq<char>, V>::empty(), msg) is None,
{
}

} // verus!
