//! The key-value store: a single mapping from string keys to entries
//! with optional expiration, read and written under exclusive access,
//! with lazy eviction of expired entries.

use vstd::prelude::*;

verus! {

/// One stored entry: the value, the clock reading when it was stamped,
/// and the optional time-to-live in seconds.
pub struct Entry {
    pub item: String,
    pub time: u64,
    pub ex: Option<u64>,
}

/// The model of an [`Entry`].
pub struct EntryModel {
    pub item: Seq<char>,
    pub time: u64,
    pub ex: Option<u64>,
}

impl Entry {
    pub open spec fn view(&self) -> EntryModel {
        EntryModel { item: self.item@, time: self.time, ex: self.ex }
    }
}

/// An entry is logically expired once more than `ex` seconds have passed
/// since its stamp. An entry without `ex` never expires, and a clock that
/// reads earlier than the stamp counts as no time passed.
pub open spec fn expired(e: EntryModel, now: u64) -> bool {
    match e.ex {
        Option::None => false,
        Option::Some(t) => now > e.time + t,
    }
}

pub open spec fn keys_unique(s: Seq<(String, Entry)>) -> bool {
    forall|i: int, j: int| 0 <= i < j < s.len() ==> (#[trigger] s[i]).0@ != (#[trigger] s[j]).0@
}

/// The map a sequence of key/entry pairs stands for; later pairs win.
pub open spec fn kv_map(s: Seq<(String, Entry)>) -> Map<Seq<char>, EntryModel>
    decreases s.len(),
{
    if s.len() == 0 {
        Map::empty()
    } else {
        kv_map(s.drop_last()).insert(s.last().0@, s.last().1@)
    }
}

/// The map of a pair sequence holds exactly the keys of its pairs; with
/// unique keys, each maps to its own pair's entry.
pub proof fn lemma_kv_map(s: Seq<(String, Entry)>)
    ensures
        forall|k: Seq<char>|
            kv_map(s).contains_key(k) <==> exists|i: int|
                0 <= i < s.len() && (#[trigger] s[i]).0@ == k,
        keys_unique(s) ==> forall|i: int|
            0 <= i < s.len() ==> kv_map(s).contains_key((#[trigger] s[i]).0@) && kv_map(s)[s[i].0@]
                == s[i].1@,
        kv_map(s).dom().finite(),
    decreases s.len(),
{
    if s.len() > 0 {
        lemma_kv_map(s.drop_last());
        assert forall|k: Seq<char>| kv_map(s).contains_key(k) implies exists|i: int|
            0 <= i < s.len() && (#[trigger] s[i]).0@ == k by {
            if k == s.last().0@ {
                assert(s[s.len() - 1].0@ == k);
            } else {
                let i = choose|i: int| 0 <= i < s.drop_last().len() && (#[trigger] s.drop_last()[i]).0@
                    == k;
                assert(s[i].0@ == k);
            }
        }
        assert forall|i: int| 0 <= i < s.len() implies kv_map(s).contains_key(
            (#[trigger] s[i]).0@,
        ) by {
            if i < s.len() - 1 {
                assert(s.drop_last()[i] == s[i]);
            }
        }
        if keys_unique(s) {
            assert(keys_unique(s.drop_last()));
            assert forall|i: int| 0 <= i < s.len() implies kv_map(s)[(#[trigger] s[i]).0@]
                == s[i].1@ by {
                if i < s.len() - 1 {
                    assert(s.drop_last()[i] == s[i]);
                    assert(s[i].0@ != s.last().0@);
                }
            }
        }
    }
}

/// With unique keys, the map holds as many keys as there are pairs.
pub proof fn lemma_kv_map_len(s: Seq<(String, Entry)>)
    requires
        keys_unique(s),
    ensures
        kv_map(s).len() == s.len(),
    decreases s.len(),
{
    if s.len() > 0 {
        assert(keys_unique(s.drop_last()));
        lemma_kv_map_len(s.drop_last());
        lemma_kv_map(s.drop_last());
        assert(!kv_map(s.drop_last()).contains_key(s.last().0@));
        assert(kv_map(s).dom() =~= kv_map(s.drop_last()).dom().insert(s.last().0@));
    }
}

/// Removing the pair at `i` removes exactly its key from the map.
pub proof fn lemma_kv_map_remove(s: Seq<(String, Entry)>, i: int)
    requires
        keys_unique(s),
        0 <= i < s.len(),
    ensures
        keys_unique(s.remove(i)),
        kv_map(s.remove(i)) == kv_map(s).remove(s[i].0@),
    decreases s.len(),
{
    lemma_kv_map(s);
    lemma_kv_map(s.remove(i));
    assert(keys_unique(s.remove(i)));
    if i == s.len() - 1 {
        assert(s.remove(i) =~= s.drop_last());
        lemma_kv_map(s.drop_last());
        assert(!kv_map(s.drop_last()).contains_key(s.last().0@));
        assert(kv_map(s.drop_last()) =~= kv_map(s).remove(s[i].0@));
    } else {
        assert(keys_unique(s.drop_last()));
        lemma_kv_map_remove(s.drop_last(), i);
        assert(s.remove(i).drop_last() =~= s.drop_last().remove(i));
        assert(s.remove(i).last() == s.last());
        assert(kv_map(s.remove(i)) == kv_map(s.drop_last().remove(i)).insert(
            s.last().0@,
            s.last().1@,
        ));
        assert(kv_map(s.remove(i)) =~= kv_map(s).remove(s[i].0@));
    }
}

/// The store: one mapping from string keys to entries, shared by every
/// connection, with all access funneled through these methods.
pub struct Store {
    entries: Vec<(String, Entry)>,
}

impl Store {
    /// The mapping this store holds.
    pub closed spec fn view(&self) -> Map<Seq<char>, EntryModel> {
        kv_map(self.entries@)
    }

    /// The store's internal invariant: one pair per key.
    pub closed spec fn wf(&self) -> bool {
        keys_unique(self.entries@)
    }

    /// An empty store.
    pub fn new() -> (r: Store)
        ensures
            r.wf(),
            r@ == Map::<Seq<char>, EntryModel>::empty(),
    {
        Store { entries: Vec::new() }
    }

    /// The position of `key` among the pairs, if it is there.
    fn find(&self, key: &String) -> (r: Option<usize>)
        ensures
            r matches Some(i) ==> i < self.entries@.len() && self.entries@[i as int].0@ == key@,
            r is None ==> forall|i: int|
                0 <= i < self.entries@.len() ==> (#[trigger] self.entries@[i]).0@ != key@,
    {
        let n = self.entries.len();
        let mut i: usize = 0;
        while i < n
            invariant
                i <= n,
                n == self.entries@.len(),
                forall|j: int| 0 <= j < i ==> (#[trigger] self.entries@[j]).0@ != key@,
            decreases n - i,
        {
            if crate::text::str_eq(self.entries[i].0.as_str(), key.as_str()) {
                return Some(i);
            }
            i = i + 1;
        }
        None
    }

    /// Insert or overwrite the entry for `key`, stamped with `now`.
    pub fn set(&mut self, key: String, value: String, ex: Option<u64>, now: u64)
        requires
            old(self).wf(),
        ensures
            final(self).wf(),
            final(self)@ == old(self)@.insert(
                key@,
                EntryModel { item: value@, time: now, ex },
            ),
    {
        let ghost s0 = self.entries@;
        match self.find(&key) {
            Some(i) => {
                proof {
                    lemma_kv_map_remove(s0, i as int);
                }
                self.entries.remove(i);
            },
            None => {
                proof {
                    lemma_kv_map(s0);
                    assert(kv_map(s0).remove(key@) =~= kv_map(s0));
                }
            },
        }
        let ghost s1 = self.entries@;
        proof {
            assert(kv_map(s1) == kv_map(s0).remove(key@));
            assert(forall|i: int| 0 <= i < s1.len() ==> (#[trigger] s1[i]).0@ != key@) by {
                lemma_kv_map(s1);
            }
        }
        let entry = Entry { item: value, time: now, ex };
        self.entries.push((key, entry));
        proof {
            assert(self.entries@.drop_last() =~= s1);
            assert(final(self)@ =~= old(self)@.insert(
                self.entries@.last().0@,
                self.entries@.last().1@,
            ));
        }
    }

    /// Look `key` up at time `now`. An absent key yields nothing; an
    /// expired entry is removed and yields nothing; a live entry yields
    /// its value and leaves the store as it was.
    pub fn get(&mut self, key: &String, now: u64) -> (r: Option<String>)
        requires
            old(self).wf(),
        ensures
            final(self).wf(),
            ({
                let m = old(self)@;
                if m.contains_key(key@) {
                    if expired(m[key@], now) {
                        r is None && final(self)@ == m.remove(key@)
                    } else {
                        (r matches Some(s) && s@ == m[key@].item) && final(self)@ == m
                    }
                } else {
                    r is None && final(self)@ == m
                }
            }),
    {
        let ghost s0 = self.entries@;
        proof {
            lemma_kv_map(s0);
        }
        match self.find(key) {
            None => {
                proof {
                    assert(!old(self)@.contains_key(key@));
                }
                None
            },
            Some(i) => {
                let live = match self.entries[i].1.ex {
                    None => true,
                    Some(t) => {
                        let elapsed = if now >= self.entries[i].1.time {
                            now - self.entries[i].1.time
                        } else {
                            0
                        };
                        elapsed <= t
                    },
                };
                if live {
                    Some(self.entries[i].1.item.clone())
                } else {
                    proof {
                        lemma_kv_map_remove(s0, i as int);
                    }
                    self.entries.remove(i);
                    None
                }
            },
        }
    }

    /// How many entries the store holds, expired-but-unevicted ones
    /// included.
    pub fn size(&self) -> (r: usize)
        requires
            self.wf(),
        ensures
            r == self@.len(),
    {
        proof {
            lemma_kv_map_len(self.entries@);
        }
        self.entries.len()
    }
}

/// Setting a key without a time-to-live and then getting it hands the
/// value back: the fresh entry is there, it is not expired at any later
/// reading of the clock, and it holds exactly the value that was set.
pub proof fn lemma_set_then_get(
    m: Map<Seq<char>, EntryModel>,
    k: Seq<char>,
    v: Seq<char>,
    now: u64,
    then: u64,
)
    requires
        k.len() > 0,
        v.len() > 0,
    ensures
        ({
            let m1 = m.insert(k, EntryModel { item: v, time: now, ex: None });
            &&& m1.contains_key(k)
            &&& !expired(m1[k], then)
            &&& m1[k].item == v
        }),
{
}

/// Setting a key with a one-second time-to-live: a get at the same clock
/// reading still sees the value; once more than one second has passed,
/// the entry is expired, the get that finds it so removes it, and the
/// size afterwards no longer counts the key.
pub proof fn lemma_ttl_expiry(
    m: Map<Seq<char>, EntryModel>,
    k: Seq<char>,
    v: Seq<char>,
    now: u64,
    then: u64,
)
    requires
        m.dom().finite(),
    ensures
        ({
            let m1 = m.insert(k, EntryModel { item: v, time: now, ex: Some(1) });
            &&& m1.contains_key(k) && m1[k].item == v
            &&& !expired(m1[k], now)
            &&& then > now + 1 ==> expired(m1[k], then)
            &&& !m1.remove(k).contains_key(k)
            &&& m1.remove(k).len() == m1.len() - 1
        }),
{
    let m1 = m.insert(k, EntryModel { item: v, time: now, ex: Some(1) });
    assert(m1.dom().finite());
    assert(m1.remove(k).dom() =~= m1.dom().remove(k));
}

/// Writing `n` entries with pairwise distinct keys into an empty store,
/// in order, at clock reading `now` and without expiry.
pub open spec fn apply_sets(
    m: Map<Seq<char>, EntryModel>,
    kvs: Seq<(Seq<char>, Seq<char>)>,
    now: u64,
) -> Map<Seq<char>, EntryModel>
    decreases kvs.len(),
{
    if kvs.len() == 0 {
        m
    } else {
        apply_sets(m, kvs.drop_last(), now).insert(
            kvs.last().0,
            EntryModel { item: kvs.last().1, time: now, ex: None },
        )
    }
}

/// After `n` sets with `n` distinct keys on an empty store, the size is
/// exactly `n`.
pub proof fn lemma_dbsize_counts_sets(kvs: Seq<(Seq<char>, Seq<char>)>, now: u64)
    requires
        forall|i: int, j: int|
            0 <= i < j < kvs.len() ==> (#[trigger] kvs[i]).0 != (#[trigger] kvs[j]).0,
    ensures
        apply_sets(Map::empty(), kvs, now).dom().finite(),
        forall|k: Seq<char>|
            apply_sets(Map::empty(), kvs, now).contains_key(k) <==> exists|i: int|
                0 <= i < kvs.len() && (#[trigger] kvs[i]).0 == k,
        apply_sets(Map::empty(), kvs, now).len() == kvs.len(),
    decreases kvs.len(),
{
    if kvs.len() > 0 {
        let prev = kvs.drop_last();
        lemma_dbsize_counts_sets(prev, now);
        let mp = apply_sets(Map::empty(), prev, now);
        let mn = apply_sets(Map::empty(), kvs, now);
        assert forall|k: Seq<char>| mn.contains_key(k) implies exists|i: int|
            0 <= i < kvs.len() && (#[trigger] kvs[i]).0 == k by {
            if k == kvs.last().0 {
                assert(kvs[kvs.len() - 1].0 == k);
            } else {
                let i = choose|i: int| 0 <= i < prev.len() && (#[trigger] prev[i]).0 == k;
                assert(kvs[i].0 == k);
            }
        }
        assert forall|k: Seq<char>| (exists|i: int|
            0 <= i < kvs.len() && (#[trigger] kvs[i]).0 == k) implies mn.contains_key(k) by {
            let i = choose|i: int| 0 <= i < kvs.len() && (#[trigger] kvs[i]).0 == k;
            if i < kvs.len() - 1 {
                assert(prev[i] == kvs[i]);
                assert(mp.contains_key(k));
            }
        }
        assert(!mp.contains_key(kvs.last().0)) by {
            if mp.contains_key(kvs.last().0) {
                let i = choose|i: int|
                    0 <= i < prev.len() && (#[trigger] prev[i]).0 == kvs.last().0;
                assert(kvs[i].0 == kvs[kvs.len() - 1].0);
            }
        }
        assert(mn.dom() =~= mp.dom().insert(kvs.last().0));
    }
}

/// Two connections set the same key, one to `a`, one to `b`. The store
/// serializes the writes, so whichever order they land in, the key
/// afterwards holds exactly the later value, one of the two as written,
/// never a mixture and never nothing.
pub proof fn lemma_concurrent_sets(
    m: Map<Seq<char>, EntryModel>,
    k: Seq<char>,
    a: Seq<char>,
    b: Seq<char>,
    ta: u64,
    tb: u64,
)
    ensures
        ({
            let ea = EntryModel { item: a, time: ta, ex: None };
            let eb = EntryModel { item: b, time: tb, ex: None };
            &&& m.insert(k, ea).insert(k, eb).contains_key(k)
            &&& m.insert(k, ea).insert(k, eb)[k] == eb
            &&& m.insert(k, eb).insert(k, ea)[k] == ea
            &&& (m.insert(k, ea).insert(k, eb)[k].item == a || m.insert(k, ea).insert(k, eb)[k].item
                == b)
        }),
{
}

} // verus!
