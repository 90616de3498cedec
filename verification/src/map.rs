//! A map with keys of any type that can tell two keys apart.

use std::collections::HashMap;
use vstd::prelude::*;
use vstd::utf8;

use crate::net::IpAddr;

verus! {

broadcast use vstd::std_specs::hash::group_hash_axioms;

/// A type whose values can be the keys of a [`KeyMap`].
pub trait MapKey: Sized {
    /// What two values share when they are the same key.
    type Key;

    spec fn key(&self) -> Self::Key;

    fn same_key(&self, other: &Self) -> (r: bool)
        ensures
            r == (self.key() == other.key()),
    ;

    /// A number that a key is filed under. Keys may share it.
    spec fn number(key: Self::Key) -> u64;

    fn key_number(&self) -> (r: u64)
        ensures
            r == Self::number(self.key()),
    ;
}

/// A number made of the first `n` bytes of a text.
pub open spec fn bytes_number(b: Seq<u8>, n: int) -> nat
    decreases n,
{
    if n <= 0 {
        0
    } else {
        (bytes_number(b, n - 1) * 31 + b[n - 1]) as nat % 0x1_0000_0000_0000_0000
    }
}

impl MapKey for String {
    type Key = Seq<char>;

    open spec fn key(&self) -> Seq<char> {
        self@
    }

    fn same_key(&self, other: &Self) -> (r: bool) {
        *self == *other
    }

    open spec fn number(key: Seq<char>) -> u64 {
        bytes_number(utf8::encode_utf8(key), utf8::encode_utf8(key).len() as int) as u64
    }

    fn key_number(&self) -> (r: u64) {
        let b = self.as_str().as_bytes();
        let mut n: u128 = 0;
        let mut i: usize = 0;
        while i < b.len()
            invariant
                i <= b@.len(),
                n == bytes_number(b@, i as int),
                n < 0x1_0000_0000_0000_0000,
            decreases b@.len() - i,
        {
            n = (n * 31 + (b[i] as u128)) % 0x1_0000_0000_0000_0000;
            i = i + 1;
        }
        n as u64
    }
}

impl MapKey for IpAddr {
    type Key = IpAddr;

    open spec fn key(&self) -> IpAddr {
        *self
    }

    fn same_key(&self, other: &Self) -> (r: bool) {
        *self == *other
    }

    open spec fn number(key: IpAddr) -> u64 {
        match key {
            IpAddr::V4(v) => v as u64,
            IpAddr::V6(v) => (v % 0x1_0000_0000_0000_0000) as u64,
        }
    }

    fn key_number(&self) -> (r: u64) {
        match self {
            IpAddr::V4(v) => *v as u64,
            IpAddr::V6(v) => (*v % 0x1_0000_0000_0000_0000) as u64,
        }
    }
}

/// Pairs that have each key once, to be searched one by one.
#[derive(Debug)]
struct Chain<K: MapKey, V> {
    entries: Vec<(K, V)>,
}

/// Whether some pair of a sequence has the key `k`.
spec fn holds_key<K: MapKey, V>(entries: Seq<(K, V)>, k: K::Key) -> bool {
    exists|i: int| 0 <= i < entries.len() && (#[trigger] entries[i]).0.key() == k
}

/// The value of the pair with the key `k`.
spec fn value_of<K: MapKey, V>(entries: Seq<(K, V)>, k: K::Key) -> V {
    entries[choose|i: int| 0 <= i < entries.len() && (#[trigger] entries[i]).0.key() == k].1
}

spec fn keys_distinct<K: MapKey, V>(entries: Seq<(K, V)>) -> bool {
    forall|i: int, j: int|
        0 <= i < entries.len() && 0 <= j < entries.len() && (#[trigger] entries[i]).0.key() == (
        #[trigger] entries[j]).0.key() ==> i == j
}

spec fn entries_view<K: MapKey, V>(entries: Seq<(K, V)>) -> Map<K::Key, V> {
    Map::new(|k: K::Key| holds_key(entries, k), |k: K::Key| value_of(entries, k))
}

proof fn lemma_value_at<K: MapKey, V>(entries: Seq<(K, V)>, i: int)
    requires
        keys_distinct(entries),
        0 <= i < entries.len(),
    ensures
        entries_view(entries).contains_key(entries[i].0.key()),
        entries_view(entries)[entries[i].0.key()] == entries[i].1,
{
    let k = entries[i].0.key();
    assert(holds_key(entries, k));
    let c = choose|i: int| 0 <= i < entries.len() && (#[trigger] entries[i]).0.key() == k;
    assert(c == i);
}

proof fn lemma_push_view<K: MapKey, V>(entries: Seq<(K, V)>, k: K, v: V)
    requires
        keys_distinct(entries),
        !holds_key(entries, k.key()),
    ensures
        keys_distinct(entries.push((k, v))),
        entries_view(entries.push((k, v))) == entries_view(entries).insert(k.key(), v),
{
    let after = entries.push((k, v));
    assert(after[entries.len() as int] == (k, v));
    assert forall|x: K::Key| #[trigger]
        entries_view(after).contains_key(x) == entries_view(entries).insert(k.key(), v).contains_key(
            x,
        ) by {
        if holds_key(entries, x) {
            let i = choose|i: int| 0 <= i < entries.len() && (#[trigger] entries[i]).0.key() == x;
            assert(after[i] == entries[i]);
        }
    }
    assert forall|x: K::Key| #[trigger] entries_view(after).contains_key(x) implies entries_view(
        after,
    )[x] == entries_view(entries).insert(k.key(), v)[x] by {
        let i = choose|i: int| 0 <= i < after.len() && (#[trigger] after[i]).0.key() == x;
        lemma_value_at(after, i);
        if i < entries.len() {
            assert(after[i] == entries[i]);
            lemma_value_at(entries, i);
        }
    }
    assert(entries_view(after) =~= entries_view(entries).insert(k.key(), v));
}

proof fn lemma_remove_view<K: MapKey, V>(entries: Seq<(K, V)>, at: int)
    requires
        keys_distinct(entries),
        0 <= at < entries.len(),
    ensures
        keys_distinct(entries.remove(at)),
        entries_view(entries.remove(at)) == entries_view(entries).remove(entries[at].0.key()),
        !holds_key(entries.remove(at), entries[at].0.key()),
{
    let after = entries.remove(at);
    let k = entries[at].0.key();
    assert forall|i: int| 0 <= i < after.len() implies #[trigger] after[i] == entries[if i < at {
        i
    } else {
        i + 1
    }] by {}
    assert forall|x: K::Key| #[trigger]
        entries_view(after).contains_key(x) == entries_view(entries).remove(k).contains_key(x) by {
        if holds_key(entries, x) && x != k {
            let i = choose|i: int| 0 <= i < entries.len() && (#[trigger] entries[i]).0.key() == x;
            let j = if i < at {
                i
            } else {
                i - 1
            };
            assert(after[j] == entries[i]);
        }
    }
    assert forall|x: K::Key| #[trigger] entries_view(after).contains_key(x) implies entries_view(
        after,
    )[x] == entries_view(entries).remove(k)[x] by {
        let i = choose|i: int| 0 <= i < after.len() && (#[trigger] after[i]).0.key() == x;
        lemma_value_at(after, i);
        lemma_value_at(
            entries,
            if i < at {
                i
            } else {
                i + 1
            },
        );
    }
    assert(entries_view(after) =~= entries_view(entries).remove(k));
}

impl<K: MapKey, V> View for Chain<K, V> {
    type V = Map<K::Key, V>;

    closed spec fn view(&self) -> Map<K::Key, V> {
        entries_view(self.entries@)
    }
}

impl<K: MapKey, V> Chain<K, V> {
    #[verifier::type_invariant]
    spec fn inv(self) -> bool {
        keys_distinct(self.entries@)
    }

    fn new() -> (r: Self)
        ensures
            r@ == Map::<K::Key, V>::empty(),
    {
        let r = Chain { entries: Vec::new() };
        assert(r@ =~= Map::<K::Key, V>::empty());
        r
    }

    /// The place of `key` among the pairs.
    fn position(&self, key: &K) -> (r: Option<usize>)
        ensures
            match r {
                Some(i) => i < self.entries@.len() && self.entries@[i as int].0.key() == key.key(),
                None => !holds_key(self.entries@, key.key()),
            },
    {
        let mut i: usize = 0;
        while i < self.entries.len()
            invariant
                i <= self.entries@.len(),
                forall|j: int| 0 <= j < i ==> (#[trigger] self.entries@[j]).0.key() != key.key(),
            decreases self.entries.len() - i,
        {
            if self.entries[i].0.same_key(key) {
                return Some(i);
            }
            i = i + 1;
        }
        None
    }

    fn get(&self, key: &K) -> (r: Option<&V>)
        ensures
            match r {
                Some(v) => self@.contains_key(key.key()) && self@[key.key()] == *v,
                None => !self@.contains_key(key.key()),
            },
    {
        proof {
            use_type_invariant(self);
        }
        match self.position(key) {
            Some(i) => {
                proof {
                    lemma_value_at(self.entries@, i as int);
                }
                Some(&self.entries[i].1)
            },
            None => None,
        }
    }

    fn is_empty(&self) -> (r: bool)
        ensures
            r == (self@ == Map::<K::Key, V>::empty()),
    {
        proof {
            if self.entries@.len() == 0 {
                assert(self@ =~= Map::<K::Key, V>::empty());
            } else {
                assert(holds_key(self.entries@, self.entries@[0].0.key()));
                assert(self@.contains_key(self.entries@[0].0.key()));
            }
        }
        self.entries.len() == 0
    }

    /// Takes `key` and its value out of the chain.
    fn remove(&mut self, key: &K) -> (r: Option<V>)
        ensures
            final(self)@ == old(self)@.remove(key.key()),
            match r {
                Some(v) => old(self)@.contains_key(key.key()) && old(self)@[key.key()] == v,
                None => !old(self)@.contains_key(key.key()),
            },
    {
        proof {
            use_type_invariant(&*self);
        }
        match self.position(key) {
            Some(i) => {
                let mut entries: Vec<(K, V)> = Vec::new();
                proof {
                    lemma_value_at(self.entries@, i as int);
                    lemma_remove_view(self.entries@, i as int);
                }
                std::mem::swap(&mut entries, &mut self.entries);
                let (_, v) = entries.remove(i);
                self.entries = entries;
                Some(v)
            },
            None => {
                assert(self@ =~= self@.remove(key.key()));
                None
            },
        }
    }

    /// Binds `key` to `value`, and returns the value it was bound to before.
    fn insert(&mut self, key: K, value: V) -> (r: Option<V>)
        ensures
            final(self)@ == old(self)@.insert(key.key(), value),
            match r {
                Some(v) => old(self)@.contains_key(key.key()) && old(self)@[key.key()] == v,
                None => !old(self)@.contains_key(key.key()),
            },
    {
        let previous = self.remove(&key);
        proof {
            use_type_invariant(&*self);
        }
        let mut entries: Vec<(K, V)> = Vec::new();
        proof {
            assert(!self@.contains_key(key.key()));
            lemma_push_view(self.entries@, key, value);
        }
        std::mem::swap(&mut entries, &mut self.entries);
        entries.push((key, value));
        self.entries = entries;
        assert(self@ =~= old(self)@.insert(key.key(), value));
        previous
    }
}

/// A finite map.
#[derive(Debug)]
pub struct KeyMap<K: MapKey, V> {
    /// The pairs, filed under the numbers of their keys.
    chains: HashMap<u64, Chain<K, V>>,
}

/// Whether chains hold a key, under its number.
spec fn chains_hold<K: MapKey, V>(chains: Map<u64, Chain<K, V>>, k: K::Key) -> bool {
    chains.contains_key(K::number(k)) && chains[K::number(k)]@.contains_key(k)
}

spec fn chains_view<K: MapKey, V>(chains: Map<u64, Chain<K, V>>) -> Map<K::Key, V> {
    Map::new(|k: K::Key| chains_hold(chains, k), |k: K::Key| chains[K::number(k)]@[k])
}

impl<K: MapKey, V> View for KeyMap<K, V> {
    type V = Map<K::Key, V>;

    closed spec fn view(&self) -> Map<K::Key, V> {
        chains_view(self.chains@)
    }
}

impl<K: MapKey, V> KeyMap<K, V> {
    pub fn new() -> (r: Self)
        ensures
            r@ == Map::<K::Key, V>::empty(),
    {
        let r = KeyMap { chains: HashMap::new() };
        assert(r@ =~= Map::<K::Key, V>::empty());
        r
    }

    pub fn get(&self, key: &K) -> (r: Option<&V>)
        ensures
            match r {
                Some(v) => self@.contains_key(key.key()) && self@[key.key()] == *v,
                None => !self@.contains_key(key.key()),
            },
    {
        match self.chains.get(&key.key_number()) {
            Some(chain) => chain.get(key),
            None => None,
        }
    }

    pub fn contains_key(&self, key: &K) -> (r: bool)
        ensures
            r == self@.contains_key(key.key()),
    {
        self.get(key).is_some()
    }

    /// Takes `key` and its value out of the map.
    pub fn remove(&mut self, key: &K) -> (r: Option<V>)
        ensures
            final(self)@ == old(self)@.remove(key.key()),
            match r {
                Some(v) => old(self)@.contains_key(key.key()) && old(self)@[key.key()] == v,
                None => !old(self)@.contains_key(key.key()),
            },
    {
        let number: u64 = key.key_number();
        match self.chains.remove(&number) {
            Some(mut chain) => {
                let ghost before = chain@;
                let value = chain.remove(key);
                if chain.is_empty() {
                    assert forall|k: K::Key| k != key.key() && before.contains_key(k) implies false by {
                        assert(before.remove(key.key()).contains_key(k));
                    }
                    assert(self@ =~= old(self)@.remove(key.key()));
                } else {
                    self.chains.insert(number, chain);
                    assert(self@ =~= old(self)@.remove(key.key()));
                }
                value
            },
            None => {
                assert(self@ =~= old(self)@.remove(key.key()));
                None
            },
        }
    }

    /// Binds `key` to `value`, and returns the value it was bound to before.
    pub fn insert(&mut self, key: K, value: V) -> (r: Option<V>)
        ensures
            final(self)@ == old(self)@.insert(key.key(), value),
            match r {
                Some(v) => old(self)@.contains_key(key.key()) && old(self)@[key.key()] == v,
                None => !old(self)@.contains_key(key.key()),
            },
    {
        let number: u64 = key.key_number();
        let mut chain = match self.chains.remove(&number) {
            Some(c) => c,
            None => Chain::new(),
        };
        let previous = chain.insert(key, value);
        self.chains.insert(number, chain);
        assert(self@ =~= old(self)@.insert(key.key(), value));
        previous
    }
}

impl<K: MapKey, V> Default for KeyMap<K, V> {
    fn default() -> (r: Self)
        ensures
            r@ == Map::<K::Key, V>::empty(),
    {
        KeyMap::new()
    }
}

} // verus!
