//! Counter stores: a per-key counter with an attached window start, behind a
//! pluggable `Store` capability set (get / update / del) with lazy expiry.

use vstd::prelude::*;

verus! {

/// The one error kind a store surfaces: any backend or storage failure.
/// Absence of a key is a valid `None` result, never an error.
#[derive(Debug, Clone)]
pub struct StoreError {
    pub msg: String,
}

/// One per-key counter record: the count of requests observed in the current
/// window, and the second at which that window began.
#[derive(Debug, Clone, Copy, PartialEq, Eq, Structural)]
pub struct Record {
    pub value: usize,
    pub window_start: u64,
}

/// A record is live at `now` while no more than `window` seconds have passed
/// since its window began; afterwards it is expired and treated as absent.
pub open spec fn live(m: Map<Seq<char>, Record>, k: Seq<char>, now: u64, window: nat) -> bool {
    m.contains_key(k) && now <= m[k].window_start + window
}

/// What `get` returns for key `k` at time `now`: the live counter, or `None`
/// for an absent or expired record.
pub open spec fn read_result(
    m: Map<Seq<char>, Record>,
    k: Seq<char>,
    now: u64,
    window: nat,
) -> Option<usize> {
    if live(m, k, now, window) {
        Some(m[k].value)
    } else {
        None
    }
}

/// The contents after `get` at time `now`: unchanged while the record is
/// live, with an expired record lazily deleted otherwise.
pub open spec fn after_read(
    m: Map<Seq<char>, Record>,
    k: Seq<char>,
    now: u64,
    window: nat,
) -> Map<Seq<char>, Record> {
    if live(m, k, now, window) {
        m
    } else {
        m.remove(k)
    }
}

/// The contents after `update(k, v)` at time `now`: the counter is set to
/// `v`; an existing record keeps its original window start, a fresh one
/// starts now.
pub open spec fn written(
    m: Map<Seq<char>, Record>,
    k: Seq<char>,
    v: usize,
    now: u64,
) -> Map<Seq<char>, Record> {
    m.insert(
        k,
        Record {
            value: v,
            window_start: if m.contains_key(k) {
                m[k].window_start
            } else {
                now
            },
        },
    )
}

/// The capability set every counter store offers the rate limiter. A store
/// behaves as a map from key to `Record`, expiring records `window()`
/// seconds after their window began.
pub trait Store: Sized {
    /// The per-key records the store currently holds.
    spec fn contents(&self) -> Map<Seq<char>, Record>;

    /// The window length, in seconds, against which records expire.
    spec fn window(&self) -> nat;

    /// The store's internal well-formedness, preserved by every operation.
    spec fn inv(&self) -> bool;

    /// Read the live counter for `key`, deleting an expired record as a side
    /// effect. An `Err` reports a backend failure, never absence.
    fn get(&mut self, key: &str, now: u64) -> (r: Result<Option<usize>, StoreError>)
        requires
            old(self).inv(),
        ensures
            final(self).inv(),
            final(self).window() == old(self).window(),
            r matches Ok(v) ==> ({
                &&& v == read_result(old(self).contents(), key@, now, old(self).window())
                &&& final(self).contents() == after_read(
                    old(self).contents(),
                    key@,
                    now,
                    old(self).window(),
                )
            }),
    ;

    /// Set the counter for `key` to `value`, keeping an existing record's
    /// window start and starting a fresh record's window at `now`.
    fn update(&mut self, key: &str, value: usize, now: u64) -> (r: Result<(), StoreError>)
        requires
            old(self).inv(),
        ensures
            final(self).inv(),
            final(self).window() == old(self).window(),
            r matches Ok(u) ==> final(self).contents() == written(
                old(self).contents(),
                key@,
                value,
                now,
            ),
    ;

    /// Remove any record for `key`; idempotent, absence is not an error.
    fn del(&mut self, key: &str) -> (r: Result<(), StoreError>)
        requires
            old(self).inv(),
        ensures
            final(self).inv(),
            final(self).window() == old(self).window(),
            r matches Ok(u) ==> final(self).contents() == old(self).contents().remove(key@),
    ;
}

/// An `update` followed at once by a `get` with no write in between reads
/// back exactly the value just written, for as long as the record's window
/// — begun at the original record's start, or at the write for a fresh key —
/// has not elapsed.
pub proof fn lemma_update_then_get(
    m: Map<Seq<char>, Record>,
    k: Seq<char>,
    v: usize,
    now: u64,
    later: u64,
    window: nat,
)
    requires
        later <= (if m.contains_key(k) {
            m[k].window_start
        } else {
            now
        }) + window,
    ensures
        read_result(written(m, k, v, now), k, later, window) == Some(v),
{
}

/// A `del` of a key followed by a `get` finds the key absent, at any time.
pub proof fn lemma_del_then_get(m: Map<Seq<char>, Record>, k: Seq<char>, now: u64, window: nat)
    ensures
        read_result(m.remove(k), k, now, window) is None,
{
}

/// The record the entry list associates with `k`: the first entry whose key
/// reads `k`, scanning from the front.
pub open spec fn lookup(s: Seq<(String, Record)>, k: Seq<char>) -> Option<Record>
    decreases s.len(),
{
    if s.len() == 0 {
        None
    } else if s[0].0@ == k {
        Some(s[0].1)
    } else {
        lookup(s.drop_first(), k)
    }
}

/// No two entries share a key, so `lookup` finds the only match.
pub open spec fn unique_keys(s: Seq<(String, Record)>) -> bool {
    forall|i: int, j: int| 0 <= i < j < s.len() ==> s[i].0@ != s[j].0@
}

/// The map an entry list denotes.
pub open spec fn contents_of(s: Seq<(String, Record)>) -> Map<Seq<char>, Record> {
    Map::new(|k: Seq<char>| lookup(s, k) is Some, |k: Seq<char>| lookup(s, k)->Some_0)
}

proof fn lemma_lookup_no_match(s: Seq<(String, Record)>, k: Seq<char>)
    requires
        forall|j: int| 0 <= j < s.len() ==> s[j].0@ != k,
    ensures
        lookup(s, k) is None,
    decreases s.len(),
{
    if s.len() > 0 {
        assert forall|j: int| 0 <= j < s.drop_first().len() implies s.drop_first()[j].0@ != k by {
            assert(s.drop_first()[j] == s[j + 1]);
        }
        lemma_lookup_no_match(s.drop_first(), k);
    }
}

proof fn lemma_lookup_first_match(s: Seq<(String, Record)>, k: Seq<char>, i: int)
    requires
        0 <= i < s.len(),
        s[i].0@ == k,
        forall|j: int| 0 <= j < i ==> s[j].0@ != k,
    ensures
        lookup(s, k) == Some(s[i].1),
    decreases i,
{
    if i > 0 {
        assert(s.drop_first()[i - 1] == s[i]);
        assert forall|j: int| 0 <= j < i - 1 implies s.drop_first()[j].0@ != k by {
            assert(s.drop_first()[j] == s[j + 1]);
        }
        lemma_lookup_first_match(s.drop_first(), k, i - 1);
    }
}

proof fn lemma_lookup_push(s: Seq<(String, Record)>, e: (String, Record), k: Seq<char>)
    requires
        forall|j: int| 0 <= j < s.len() ==> s[j].0@ != e.0@,
    ensures
        lookup(s.push(e), k) == (if k == e.0@ {
            Some(e.1)
        } else {
            lookup(s, k)
        }),
    decreases s.len(),
{
    if s.len() == 0 {
        assert(s.push(e)[0] == e);
        if k != e.0@ {
            let t = s.push(e).drop_first();
            assert(t =~= Seq::<(String, Record)>::empty());
            assert(lookup(t, k) is None);
            assert(lookup(s, k) is None);
        }
    } else {
        assert(s.push(e)[0] == s[0]);
        if s[0].0@ == k {
            assert(k != e.0@);
        } else {
            assert(s.push(e).drop_first() =~= s.drop_first().push(e));
            assert forall|j: int| 0 <= j < s.drop_first().len() implies s.drop_first()[j].0@
                != e.0@ by {
                assert(s.drop_first()[j] == s[j + 1]);
            }
            lemma_lookup_push(s.drop_first(), e, k);
        }
    }
}

proof fn lemma_lookup_update(s: Seq<(String, Record)>, i: int, e: (String, Record), k: Seq<char>)
    requires
        0 <= i < s.len(),
        s[i].0@ == e.0@,
        forall|j: int| 0 <= j < i ==> s[j].0@ != e.0@,
    ensures
        lookup(s.update(i, e), k) == (if k == e.0@ {
            Some(e.1)
        } else {
            lookup(s, k)
        }),
    decreases s.len(),
{
    if i == 0 {
        assert(s.update(0, e)[0] == e);
        if k != e.0@ {
            assert(s.update(0, e).drop_first() =~= s.drop_first());
        }
    } else {
        assert(s.update(i, e)[0] == s[0]);
        if s[0].0@ != k {
            assert(s.update(i, e).drop_first() =~= s.drop_first().update(i - 1, e));
            assert(s.drop_first()[i - 1] == s[i]);
            assert forall|j: int| 0 <= j < i - 1 implies s.drop_first()[j].0@ != e.0@ by {
                assert(s.drop_first()[j] == s[j + 1]);
            }
            lemma_lookup_update(s.drop_first(), i - 1, e, k);
        }
    }
}

proof fn lemma_lookup_remove(s: Seq<(String, Record)>, i: int, k: Seq<char>)
    requires
        0 <= i < s.len(),
        unique_keys(s),
    ensures
        lookup(s.remove(i), k) == (if k == s[i].0@ {
            None
        } else {
            lookup(s, k)
        }),
    decreases s.len(),
{
    if i == 0 {
        assert(s.remove(0) =~= s.drop_first());
        if k == s[0].0@ {
            assert forall|j: int| 0 <= j < s.drop_first().len() implies s.drop_first()[j].0@
                != k by {
                assert(s.drop_first()[j] == s[j + 1]);
            }
            lemma_lookup_no_match(s.drop_first(), k);
        }
    } else {
        assert(s.remove(i)[0] == s[0]);
        if s[0].0@ == k {
            assert(k != s[i].0@);
        } else {
            assert(s.remove(i).drop_first() =~= s.drop_first().remove(i - 1));
            assert(s.drop_first()[i - 1] == s[i]);
            assert forall|a: int, b: int|
                0 <= a < b < s.drop_first().len() implies s.drop_first()[a].0@
                != s.drop_first()[b].0@ by {
                assert(s.drop_first()[a] == s[a + 1]);
                assert(s.drop_first()[b] == s[b + 1]);
            }
            lemma_lookup_remove(s.drop_first(), i - 1, k);
        }
    }
}

/// The in-process store: one mutable mapping per instance, expiring records
/// lazily on read by comparing elapsed time against the window length.
#[derive(Debug, Clone)]
pub struct MemoryStore {
    entries: Vec<(String, Record)>,
    options: crate::limiter::Options,
}

impl MemoryStore {
    pub fn new(options: crate::limiter::Options) -> (r: Self)
        ensures
            r.inv(),
            r.contents() == Map::<Seq<char>, Record>::empty(),
            r.window() == options.window_seconds as nat,
    {
        let r = MemoryStore { entries: Vec::new(), options };
        proof {
            assert(r.contents() =~= Map::<Seq<char>, Record>::empty());
        }
        r
    }

    /// The index of the entry for `key`, if one exists.
    fn find(&self, key: &str) -> (r: Option<usize>)
        ensures
            match r {
                Some(i) => {
                    &&& i < self.entries@.len()
                    &&& self.entries@[i as int].0@ == key@
                    &&& forall|j: int| 0 <= j < i ==> self.entries@[j].0@ != key@
                },
                None => forall|j: int| 0 <= j < self.entries@.len() ==> self.entries@[j].0@ != key@,
            },
    {
        let k: String = key.to_owned();
        let n = self.entries.len();
        let mut i: usize = 0;
        while i < n
            invariant
                n == self.entries@.len(),
                i <= n,
                k@ == key@,
                forall|j: int| 0 <= j < i ==> self.entries@[j].0@ != key@,
            decreases n - i,
        {
            if self.entries[i].0 == k {
                return Some(i);
            }
            i = i + 1;
        }
        None
    }
}

impl Store for MemoryStore {
    closed spec fn contents(&self) -> Map<Seq<char>, Record> {
        contents_of(self.entries@)
    }

    closed spec fn window(&self) -> nat {
        self.options.window_seconds as nat
    }

    closed spec fn inv(&self) -> bool {
        unique_keys(self.entries@)
    }

    fn get(&mut self, key: &str, now: u64) -> (r: Result<Option<usize>, StoreError>)
        ensures
            r is Ok,
    {
        match self.find(key) {
            None => {
                proof {
                    lemma_lookup_no_match(self.entries@, key@);
                    assert(!self.contents().contains_key(key@));
                    assert(self.contents() =~= self.contents().remove(key@));
                }
                Ok(None)
            },
            Some(i) => {
                let rec = self.entries[i].1;
                proof {
                    lemma_lookup_first_match(self.entries@, key@, i as int);
                    assert(self.contents()[key@] == rec);
                }
                let w64 = self.options.window_seconds as u64;
                let expired = now > rec.window_start && now - rec.window_start > w64;
                if expired {
                    let ghost s0 = self.entries@;
                    let _ = self.entries.remove(i);
                    proof {
                        assert forall|k2: Seq<char>|
                            lookup(self.entries@, k2) == (if k2 == s0[i as int].0@ {
                                None
                            } else {
                                lookup(s0, k2)
                            }) by {
                            lemma_lookup_remove(s0, i as int, k2);
                        }
                        assert forall|a: int, b: int|
                            0 <= a < b < self.entries@.len() implies self.entries@[a].0@
                            != self.entries@[b].0@ by {
                            if b < i {
                                assert(self.entries@[a] == s0[a]);
                                assert(self.entries@[b] == s0[b]);
                            } else if a < i {
                                assert(self.entries@[a] == s0[a]);
                                assert(self.entries@[b] == s0[b + 1]);
                            } else {
                                assert(self.entries@[a] == s0[a + 1]);
                                assert(self.entries@[b] == s0[b + 1]);
                            }
                        }
                        assert(contents_of(self.entries@) =~= contents_of(s0).remove(key@));
                    }
                    Ok(None)
                } else {
                    Ok(Some(rec.value))
                }
            },
        }
    }

    fn update(&mut self, key: &str, value: usize, now: u64) -> (r: Result<(), StoreError>)
        ensures
            r is Ok,
    {
        let k: String = key.to_owned();
        match self.find(key) {
            Some(i) => {
                let ws = self.entries[i].1.window_start;
                let ghost s0 = self.entries@;
                proof {
                    lemma_lookup_first_match(s0, key@, i as int);
                }
                self.entries.set(i, (k, Record { value, window_start: ws }));
                proof {
                    assert(self.entries@ =~= s0.update(i as int, self.entries@[i as int]));
                    assert forall|k2: Seq<char>|
                        lookup(self.entries@, k2) == (if k2 == key@ {
                            Some(Record { value, window_start: ws })
                        } else {
                            lookup(s0, k2)
                        }) by {
                        lemma_lookup_update(s0, i as int, self.entries@[i as int], k2);
                    }
                    assert forall|a: int, b: int|
                        0 <= a < b < self.entries@.len() implies self.entries@[a].0@
                        != self.entries@[b].0@ by {
                        assert(self.entries@[a].0@ == s0[a].0@);
                        assert(self.entries@[b].0@ == s0[b].0@);
                    }
                    assert(contents_of(self.entries@) =~= written(contents_of(s0), key@, value, now));
                }
                Ok(())
            },
            None => {
                let ghost s0 = self.entries@;
                proof {
                    lemma_lookup_no_match(s0, key@);
                    assert(!contents_of(s0).contains_key(key@));
                }
                self.entries.push((k, Record { value, window_start: now }));
                proof {
                    assert forall|k2: Seq<char>|
                        lookup(self.entries@, k2) == (if k2 == key@ {
                            Some(Record { value, window_start: now })
                        } else {
                            lookup(s0, k2)
                        }) by {
                        lemma_lookup_push(s0, self.entries@.last(), k2);
                    }
                    assert forall|a: int, b: int|
                        0 <= a < b < self.entries@.len() implies self.entries@[a].0@
                        != self.entries@[b].0@ by {
                        if b < s0.len() {
                            assert(self.entries@[a] == s0[a]);
                            assert(self.entries@[b] == s0[b]);
                        } else {
                            assert(self.entries@[a] == s0[a]);
                            assert(self.entries@[b].0@ == key@);
                        }
                    }
                    assert(contents_of(self.entries@) =~= written(contents_of(s0), key@, value, now));
                }
                Ok(())
            },
        }
    }

    fn del(&mut self, key: &str) -> (r: Result<(), StoreError>)
        ensures
            r is Ok,
    {
        match self.find(key) {
            Some(i) => {
                let ghost s0 = self.entries@;
                let _ = self.entries.remove(i);
                proof {
                    assert forall|k2: Seq<char>|
                        lookup(self.entries@, k2) == (if k2 == s0[i as int].0@ {
                            None
                        } else {
                            lookup(s0, k2)
                        }) by {
                        lemma_lookup_remove(s0, i as int, k2);
                    }
                    assert forall|a: int, b: int|
                        0 <= a < b < self.entries@.len() implies self.entries@[a].0@
                        != self.entries@[b].0@ by {
                        if b < i {
                            assert(self.entries@[a] == s0[a]);
                            assert(self.entries@[b] == s0[b]);
                        } else if a < i {
                            assert(self.entries@[a] == s0[a]);
                            assert(self.entries@[b] == s0[b + 1]);
                        } else {
                            assert(self.entries@[a] == s0[a + 1]);
                            assert(self.entries@[b] == s0[b + 1]);
                        }
                    }
                    assert(contents_of(self.entries@) =~= contents_of(s0).remove(key@));
                }
                Ok(())
            },
            None => {
                proof {
                    lemma_lookup_no_match(self.entries@, key@);
                    assert(!self.contents().contains_key(key@));
                    assert(self.contents() =~= self.contents().remove(key@));
                }
                Ok(())
            },
        }
    }
}

} // verus!
