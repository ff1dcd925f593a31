//! The key lock manager: an in-memory table mapping a storage key to its
//! access state, either one exclusive writer or a count of shared readers.
//!
//! The table is the decision core of the readers/writer coordination: a
//! waiter calls `try_acquire_*` and, on `false`, blocks on whatever
//! wait/notify primitive the surrounding program uses, re-checking after
//! every wakeup. Absence of an entry means the key is free.

use vstd::prelude::*;

verus! {

/// The access state of one storage key.
#[derive(Clone, Copy, Debug, PartialEq, Eq, Structural)]
pub enum LockState {
    /// One exclusive writer holds the key.
    Write,
    /// The given number of readers (at least one) hold the key.
    Read(u32),
}

/// What acquiring a write lock does to a lock map: it succeeds exactly
/// when the key is free, and then registers the writer.
pub open spec fn acquire_write_spec(m: Map<Seq<char>, LockState>, k: Seq<char>) -> (
    bool,
    Map<Seq<char>, LockState>,
) {
    if m.dom().contains(k) {
        (false, m)
    } else {
        (true, m.insert(k, LockState::Write))
    }
}

/// What acquiring a read lock does to a lock map: it succeeds exactly when
/// no writer holds the key (and the reader count has room), and then
/// registers one more reader.
pub open spec fn acquire_read_spec(m: Map<Seq<char>, LockState>, k: Seq<char>) -> (
    bool,
    Map<Seq<char>, LockState>,
) {
    if !m.dom().contains(k) {
        (true, m.insert(k, LockState::Read(1)))
    } else {
        match m[k] {
            LockState::Write => (false, m),
            LockState::Read(n) => if n < u32::MAX {
                (true, m.insert(k, LockState::Read((n + 1) as u32)))
            } else {
                (false, m)
            },
        }
    }
}

/// Releasing a write lock frees the key.
pub open spec fn release_write_spec(m: Map<Seq<char>, LockState>, k: Seq<char>) -> Map<
    Seq<char>,
    LockState,
> {
    m.remove(k)
}

/// Releasing a read lock unregisters one reader and frees the key when the
/// last reader leaves.
pub open spec fn release_read_spec(m: Map<Seq<char>, LockState>, k: Seq<char>) -> Map<
    Seq<char>,
    LockState,
>
    recommends
        m.dom().contains(k),
        m[k] is Read,
{
    match m[k] {
        LockState::Read(n) => if n <= 1 {
            m.remove(k)
        } else {
            m.insert(k, LockState::Read((n - 1) as u32))
        },
        LockState::Write => m,
    }
}

/// The map an association list denotes: later entries would win, though a
/// well-formed table never repeats a key.
pub open spec fn map_of_entries(s: Seq<(String, LockState)>) -> Map<Seq<char>, LockState>
    decreases s.len(),
{
    if s.len() == 0 {
        Map::empty()
    } else {
        map_of_entries(s.drop_last()).insert(s.last().0@, s.last().1)
    }
}

/// No two entries share a key.
pub open spec fn distinct_keys(s: Seq<(String, LockState)>) -> bool {
    forall|i: int, j: int| 0 <= i < j < s.len() ==> s[i].0@ != s[j].0@
}

pub proof fn lemma_entries_absent(s: Seq<(String, LockState)>, k: Seq<char>)
    requires
        forall|i: int| 0 <= i < s.len() ==> s[i].0@ != k,
    ensures
        !map_of_entries(s).dom().contains(k),
    decreases s.len(),
{
    if s.len() > 0 {
        lemma_entries_absent(s.drop_last(), k);
    }
}

pub proof fn lemma_entries_index(s: Seq<(String, LockState)>, i: int)
    requires
        distinct_keys(s),
        0 <= i < s.len(),
    ensures
        map_of_entries(s).dom().contains(s[i].0@),
        map_of_entries(s)[s[i].0@] == s[i].1,
    decreases s.len(),
{
    if i < s.len() - 1 {
        lemma_entries_index(s.drop_last(), i);
        assert(s[i].0@ != s.last().0@);
    }
}

pub proof fn lemma_entries_push(s: Seq<(String, LockState)>, p: (String, LockState))
    ensures
        map_of_entries(s.push(p)) == map_of_entries(s).insert(p.0@, p.1),
{
    assert(s.push(p).drop_last() =~= s);
    assert(s.push(p).last() == p);
}

pub proof fn lemma_entries_remove(s: Seq<(String, LockState)>, i: int)
    requires
        distinct_keys(s),
        0 <= i < s.len(),
    ensures
        map_of_entries(s.remove(i)) == map_of_entries(s).remove(s[i].0@),
        distinct_keys(s.remove(i)),
    decreases s.len(),
{
    assert(distinct_keys(s.remove(i)));
    if i == s.len() - 1 {
        assert(s.remove(i) =~= s.drop_last());
        assert(forall|j: int| 0 <= j < s.drop_last().len() ==> s.drop_last()[j].0@ != s[i].0@);
        lemma_entries_absent(s.drop_last(), s[i].0@);
        assert(map_of_entries(s).remove(s[i].0@) =~= map_of_entries(s.drop_last()));
    } else {
        assert(s.remove(i).drop_last() =~= s.drop_last().remove(i));
        assert(s.remove(i).last() == s.last());
        lemma_entries_remove(s.drop_last(), i);
        assert(map_of_entries(s.remove(i)) == map_of_entries(s.drop_last()).remove(
            s[i].0@,
        ).insert(s.last().0@, s.last().1));
        assert(s[i].0@ != s.last().0@);
        assert(map_of_entries(s.drop_last()).remove(s[i].0@).insert(s.last().0@, s.last().1)
            =~= map_of_entries(s.drop_last()).insert(s.last().0@, s.last().1).remove(s[i].0@));
    }
}

pub proof fn lemma_entries_insert(s: Seq<(String, LockState)>, i: int, p: (String, LockState))
    requires
        distinct_keys(s),
        forall|j: int| 0 <= j < s.len() ==> s[j].0@ != p.0@,
        0 <= i <= s.len(),
    ensures
        map_of_entries(s.insert(i, p)) == map_of_entries(s).insert(p.0@, p.1),
        distinct_keys(s.insert(i, p)),
    decreases s.len(),
{
    assert(distinct_keys(s.insert(i, p)));
    if i == s.len() {
        assert(s.insert(i, p) =~= s.push(p));
        lemma_entries_push(s, p);
    } else {
        assert(s.insert(i, p).drop_last() =~= s.drop_last().insert(i, p));
        assert(s.insert(i, p).last() == s.last());
        lemma_entries_insert(s.drop_last(), i, p);
        assert(map_of_entries(s.insert(i, p)) == map_of_entries(s.drop_last()).insert(
            p.0@,
            p.1,
        ).insert(s.last().0@, s.last().1));
        assert(s.last().0@ != p.0@);
        assert(map_of_entries(s.drop_last()).insert(p.0@, p.1).insert(s.last().0@, s.last().1)
            =~= map_of_entries(s.drop_last()).insert(s.last().0@, s.last().1).insert(p.0@, p.1));
    }
}

/// Exclusivity: while a key has any holder at all, acquiring the write
/// lock fails and leaves the table unchanged, so at most one writer ever
/// holds a key and never beside a reader.
pub proof fn lemma_writer_excluded(m: Map<Seq<char>, LockState>, k: Seq<char>)
    requires
        m.dom().contains(k),
    ensures
        !acquire_write_spec(m, k).0,
        acquire_write_spec(m, k).1 == m,
{
}

/// Exclusivity: while a writer holds a key, acquiring a read lock fails
/// and leaves the table unchanged.
pub proof fn lemma_writer_blocks_readers(m: Map<Seq<char>, LockState>, k: Seq<char>)
    requires
        m.dom().contains(k),
        m[k] == LockState::Write,
    ensures
        !acquire_read_spec(m, k).0,
        acquire_read_spec(m, k).1 == m,
{
}

/// Readers never block readers: while no writer holds the key and the
/// reader count has room, one more read acquisition succeeds.
pub proof fn lemma_readers_share(m: Map<Seq<char>, LockState>, k: Seq<char>)
    requires
        !m.dom().contains(k) || (m[k] matches LockState::Read(n) && n < u32::MAX),
    ensures
        acquire_read_spec(m, k).0,
{
}

/// The table after `c` successive read acquisitions of one key, or a
/// failure flag if any of them would have blocked.
pub open spec fn acquire_readers_spec(m: Map<Seq<char>, LockState>, k: Seq<char>, c: nat) -> (
    bool,
    Map<Seq<char>, LockState>,
)
    decreases c,
{
    if c == 0 {
        (true, m)
    } else {
        let p = acquire_read_spec(m, k);
        if !p.0 {
            (false, p.1)
        } else {
            acquire_readers_spec(p.1, k, (c - 1) as nat)
        }
    }
}

pub proof fn lemma_more_readers(m: Map<Seq<char>, LockState>, k: Seq<char>, n: u32, c: nat)
    requires
        m.dom().contains(k),
        m[k] == LockState::Read(n),
        1 <= n,
        n + c <= u32::MAX,
    ensures
        acquire_readers_spec(m, k, c).0,
        acquire_readers_spec(m, k, c).1 == if c == 0 {
            m
        } else {
            m.insert(k, LockState::Read((n + c) as u32))
        },
    decreases c,
{
    if c > 0 {
        let m1 = m.insert(k, LockState::Read((n + 1) as u32));
        assert(acquire_read_spec(m, k) == (true, m1));
        lemma_more_readers(m1, k, (n + 1) as u32, (c - 1) as nat);
        if c > 1 {
            assert(m1.insert(k, LockState::Read((n + c) as u32)) =~= m.insert(
                k,
                LockState::Read((n + c) as u32),
            ));
        }
    }
}

/// Concurrent readers: on a free key, any number of successive read
/// acquisitions (up to the counter's capacity) all succeed, and the key
/// then records exactly that many readers.
pub proof fn lemma_concurrent_readers(m: Map<Seq<char>, LockState>, k: Seq<char>, c: nat)
    requires
        !m.dom().contains(k),
        c <= u32::MAX,
    ensures
        acquire_readers_spec(m, k, c).0,
        c > 0 ==> acquire_readers_spec(m, k, c).1 == m.insert(k, LockState::Read(c as u32)),
        c == 0 ==> acquire_readers_spec(m, k, c).1 == m,
{
    if c > 0 {
        let m1 = m.insert(k, LockState::Read(1));
        assert(acquire_read_spec(m, k) == (true, m1));
        lemma_more_readers(m1, k, 1, (c - 1) as nat);
        if c > 1 {
            assert(m1.insert(k, LockState::Read(c as u32)) =~= m.insert(
                k,
                LockState::Read(c as u32),
            ));
        }
    }
}

/// A write lock acquired on a free key and then released leaves the table
/// exactly as it was.
pub proof fn lemma_write_release_round(m: Map<Seq<char>, LockState>, k: Seq<char>)
    requires
        !m.dom().contains(k),
    ensures
        release_write_spec(acquire_write_spec(m, k).1, k) == m,
{
    assert(m.insert(k, LockState::Write).remove(k) =~= m);
}

/// A read lock acquired on a free key and then released leaves the table
/// exactly as it was.
pub proof fn lemma_read_release_round(m: Map<Seq<char>, LockState>, k: Seq<char>)
    requires
        !m.dom().contains(k),
    ensures
        release_read_spec(acquire_read_spec(m, k).1, k) == m,
{
    assert(m.insert(k, LockState::Read(1)).remove(k) =~= m);
}

/// The in-memory lock table. One instance guards one store; the surrounding
/// program serializes access to the table itself (in the verified store it
/// is owned exclusively).
pub struct LockTable {
    entries: Vec<(String, LockState)>,
}

impl View for LockTable {
    type V = Map<Seq<char>, LockState>;

    closed spec fn view(&self) -> Map<Seq<char>, LockState> {
        map_of_entries(self.entries@)
    }
}

impl LockTable {
    /// Every key appears at most once and every reader entry counts at
    /// least one reader.
    pub closed spec fn wf(&self) -> bool {
        &&& distinct_keys(self.entries@)
        &&& forall|i: int|
            0 <= i < self.entries@.len() ==> ((#[trigger] self.entries@[i].1) matches
                LockState::Read(n) ==> n >= 1)
    }

    /// An empty table: every key is free.
    pub fn new() -> (r: LockTable)
        ensures
            r.wf(),
            r@ == Map::<Seq<char>, LockState>::empty(),
    {
        LockTable { entries: Vec::new() }
    }

    /// The position of a key's entry, if the key is held at all.
    fn find_index(&self, key: &String) -> (r: Option<usize>)
        requires
            self.wf(),
        ensures
            match r {
                Some(i) => i < self.entries@.len() && self.entries@[i as int].0@ == key@
                    && self@.dom().contains(key@) && self@[key@] == self.entries@[i as int].1,
                None => !self@.dom().contains(key@),
            },
    {
        let n = self.entries.len();
        let mut i: usize = 0;
        while i < n
            invariant
                self.wf(),
                n == self.entries@.len(),
                i <= n,
                forall|j: int| 0 <= j < i ==> self.entries@[j].0@ != key@,
            decreases n - i,
        {
            if self.entries[i].0 == *key {
                proof {
                    lemma_entries_index(self.entries@, i as int);
                }
                return Some(i);
            }
            i = i + 1;
        }
        proof {
            lemma_entries_absent(self.entries@, key@);
        }
        None
    }

    /// Whether the key currently has any holder.
    pub fn is_held(&self, key: &String) -> (r: bool)
        requires
            self.wf(),
        ensures
            r == self@.dom().contains(key@),
    {
        self.find_index(key).is_some()
    }

    /// Tries to register an exclusive writer for the key: succeeds exactly
    /// when the key is free. A caller that gets `false` waits and retries.
    pub fn try_acquire_write(&mut self, key: &String) -> (r: bool)
        requires
            old(self).wf(),
        ensures
            final(self).wf(),
            r == acquire_write_spec(old(self)@, key@).0,
            final(self)@ == acquire_write_spec(old(self)@, key@).1,
    {
        match self.find_index(key) {
            Some(_) => false,
            None => {
                let pair = (key.clone(), LockState::Write);
                proof {
                    assert forall|j: int|
                        0 <= j < self.entries@.len() implies self.entries@[j].0@ != key@ by {
                        lemma_entries_index(self.entries@, j);
                    }
                    lemma_entries_push(self.entries@, pair);
                    assert(distinct_keys(self.entries@.push(pair)));
                }
                self.entries.push(pair);
                true
            },
        }
    }

    /// Tries to register one more shared reader for the key: succeeds
    /// exactly when no writer holds it and the reader count has room.
    pub fn try_acquire_read(&mut self, key: &String) -> (r: bool)
        requires
            old(self).wf(),
        ensures
            final(self).wf(),
            r == acquire_read_spec(old(self)@, key@).0,
            final(self)@ == acquire_read_spec(old(self)@, key@).1,
    {
        match self.find_index(key) {
            None => {
                let pair = (key.clone(), LockState::Read(1));
                proof {
                    assert forall|j: int|
                        0 <= j < self.entries@.len() implies self.entries@[j].0@ != key@ by {
                        lemma_entries_index(self.entries@, j);
                    }
                    lemma_entries_push(self.entries@, pair);
                    assert(distinct_keys(self.entries@.push(pair)));
                }
                self.entries.push(pair);
                true
            },
            Some(i) => {
                let state = self.entries[i].1;
                match state {
                    LockState::Write => false,
                    LockState::Read(n) => {
                        if n < u32::MAX {
                            proof {
                                lemma_entries_remove(self.entries@, i as int);
                            }
                            let ghost pre = self.entries@;
                            let pair = self.entries.remove(i);
                            proof {
                                assert(forall|j: int|
                                    0 <= j < self.entries@.len() ==> self.entries@[j].0@
                                        != pair.0@) by {
                                    assert(forall|j: int|
                                        0 <= j < pre.remove(i as int).len()
                                            ==> pre.remove(i as int)[j].0@ != pre[i as int].0@);
                                }
                                lemma_entries_insert(
                                    self.entries@,
                                    i as int,
                                    (pair.0, LockState::Read((n + 1) as u32)),
                                );
                            }
                            self.entries.insert(i, (pair.0, LockState::Read(n + 1)));
                            proof {
                                assert(old(self)@.insert(key@, LockState::Read((n + 1) as u32))
                                    =~= old(self)@.remove(key@).insert(
                                    key@,
                                    LockState::Read((n + 1) as u32),
                                ));
                            }
                            true
                        } else {
                            false
                        }
                    },
                }
            },
        }
    }

    /// Releases the exclusive writer of a key. Releasing a key the table
    /// records otherwise is a contract violation of the caller.
    pub fn release_write(&mut self, key: &String)
        requires
            old(self).wf(),
            old(self)@.dom().contains(key@),
            old(self)@[key@] == LockState::Write,
        ensures
            final(self).wf(),
            final(self)@ == release_write_spec(old(self)@, key@),
    {
        match self.find_index(key) {
            Some(i) => {
                proof {
                    lemma_entries_remove(self.entries@, i as int);
                }
                self.entries.remove(i);
            },
            None => {
                proof {
                    assert(false);
                }
            },
        }
    }

    /// Releases one shared reader of a key, freeing the key when the last
    /// reader leaves. Releasing a key the table records otherwise is a
    /// contract violation of the caller.
    pub fn release_read(&mut self, key: &String)
        requires
            old(self).wf(),
            old(self)@.dom().contains(key@),
            old(self)@[key@] is Read,
        ensures
            final(self).wf(),
            final(self)@ == release_read_spec(old(self)@, key@),
    {
        match self.find_index(key) {
            Some(i) => {
                let state = self.entries[i].1;
                match state {
                    LockState::Read(n) => {
                        proof {
                            lemma_entries_remove(self.entries@, i as int);
                        }
                        let ghost pre = self.entries@;
                        let pair = self.entries.remove(i);
                        if n > 1 {
                            proof {
                                assert(forall|j: int|
                                    0 <= j < self.entries@.len() ==> self.entries@[j].0@
                                        != pair.0@) by {
                                    assert(forall|j: int|
                                        0 <= j < pre.remove(i as int).len()
                                            ==> pre.remove(i as int)[j].0@ != pre[i as int].0@);
                                }
                                lemma_entries_insert(
                                    self.entries@,
                                    i as int,
                                    (pair.0, LockState::Read((n - 1) as u32)),
                                );
                            }
                            self.entries.insert(i, (pair.0, LockState::Read(n - 1)));
                            proof {
                                assert(old(self)@.insert(key@, LockState::Read((n - 1) as u32))
                                    =~= old(self)@.remove(key@).insert(
                                    key@,
                                    LockState::Read((n - 1) as u32),
                                ));
                            }
                        }
                    },
                    LockState::Write => {
                        proof {
                            assert(false);
                        }
                    },
                }
            },
            None => {
                proof {
                    assert(false);
                }
            },
        }
    }
}

} // verus!
