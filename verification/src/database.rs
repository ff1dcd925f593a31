//! The storage engine: create, read, update, delete and list operations
//! over a table of entries addressed by storage key, with a per-key
//! readers/writer lock taken around every operation.
//!
//! The engine holds the entry table in memory; an unverified shell that
//! wants the entries on disk mirrors each operation onto one file per
//! entry, at `<path>/<namespace>/<entry name>`.

use vstd::prelude::*;
use crate::bytes::Bytes;
use crate::bytes::reversed;
use crate::count::Count;
use crate::error::Error;
use crate::error::ErrorKind;
use crate::hex;
use crate::hex::hex_encode;
use crate::hex::hex_decode;
use crate::locks::LockTable;
use crate::store::Store;
use vstd::string::StringExecFns;

verus! {

/// The storage key of an entry: its namespace, a separator, its encoded
/// identifier. The key is both the lock-table key and, for a file-backed
/// shell, the relative path of the entry's file.
pub open spec fn spec_key(ns: Seq<char>, enc: Seq<char>) -> Seq<char> {
    ns + seq!['/'] + enc
}

/// Whether an identifier's serialized form fits the encoding bounds.
pub open spec fn spec_id_ok<I: Bytes>(idv: I::V) -> bool {
    1 <= I::ser(idv).len() <= hex::MAX_ID_BYTES
}

/// The encoded identifier text of an abstract identifier value.
pub open spec fn spec_enc<I: Bytes>(idv: I::V) -> Seq<char> {
    hex_encode(I::ser(idv))
}

/// The storage key a record type gives an abstract identifier value.
pub open spec fn spec_key_for<T: Store>(idv: <T::Id as DeepView>::V) -> Seq<char> {
    spec_key(T::spec_name(), spec_enc::<T::Id>(idv))
}

/// Whether a storage key lies in a namespace: it starts with the
/// namespace and the separator.
pub open spec fn in_ns(k: Seq<char>, ns: Seq<char>) -> bool {
    k.len() >= ns.len() + 1 && k.take(ns.len() + 1 as int) == ns + seq!['/']
}

/// The encoded identifier part of a storage key in a namespace.
pub open spec fn enc_of(k: Seq<char>, ns: Seq<char>) -> Seq<char> {
    k.skip(ns.len() + 1 as int)
}

/// The keys of a key sequence that lie in a namespace, in order.
pub open spec fn keys_in_ns(keys: Seq<Seq<char>>, ns: Seq<char>) -> Seq<Seq<char>>
    decreases keys.len(),
{
    if keys.len() == 0 {
        Seq::empty()
    } else {
        keys_in_ns(keys.drop_last(), ns) + (if in_ns(keys.last(), ns) {
            seq![keys.last()]
        } else {
            Seq::empty()
        })
    }
}

/// The result of decoding an entry name back to an abstract identifier
/// value: the name's bytes, reversed and deserialized.
pub open spec fn spec_dec_id<I: Bytes>(enc: Seq<char>) -> Option<I::V> {
    match hex_decode(enc) {
        None => None,
        Some(bytes) => match I::deser(bytes.reverse()) {
            Ok(p) => Some(p.0),
            Err(_) => None,
        },
    }
}

/// One stored entry: its namespace, its encoded identifier, the storage
/// key joining the two, and the serialized record.
struct StoreEntry {
    ns: String,
    enc: String,
    key: String,
    data: Vec<u8>,
}

/// The parts of an entry agree: the key joins a namespace that is a
/// nonempty name without a separator to the encoded identifier.
spec fn entry_wf(e: StoreEntry) -> bool {
    &&& e.key@ == spec_key(e.ns@, e.enc@)
    &&& e.ns@.len() >= 1
    &&& forall|i: int| 0 <= i < e.ns@.len() ==> e.ns@[i] != '/'
}

/// The map an entry sequence denotes, storage key to stored bytes.
spec fn store_of(s: Seq<StoreEntry>) -> Map<Seq<char>, Seq<u8>>
    decreases s.len(),
{
    if s.len() == 0 {
        Map::empty()
    } else {
        store_of(s.drop_last()).insert(s.last().key@, s.last().data@)
    }
}

/// No two entries share a storage key.
spec fn distinct_entry_keys(s: Seq<StoreEntry>) -> bool {
    forall|i: int, j: int| 0 <= i < j < s.len() ==> s[i].key@ != s[j].key@
}

proof fn lemma_store_absent(s: Seq<StoreEntry>, k: Seq<char>)
    requires
        forall|i: int| 0 <= i < s.len() ==> s[i].key@ != k,
    ensures
        !store_of(s).dom().contains(k),
    decreases s.len(),
{
    if s.len() > 0 {
        lemma_store_absent(s.drop_last(), k);
    }
}

proof fn lemma_store_index(s: Seq<StoreEntry>, i: int)
    requires
        distinct_entry_keys(s),
        0 <= i < s.len(),
    ensures
        store_of(s).dom().contains(s[i].key@),
        store_of(s)[s[i].key@] == s[i].data@,
    decreases s.len(),
{
    if i < s.len() - 1 {
        lemma_store_index(s.drop_last(), i);
        assert(s[i].key@ != s.last().key@);
    }
}

proof fn lemma_store_dom(s: Seq<StoreEntry>, k: Seq<char>)
    requires
        store_of(s).dom().contains(k),
    ensures
        exists|i: int| 0 <= i < s.len() && s[i].key@ == k,
    decreases s.len(),
{
    if s.len() > 0 {
        if s.last().key@ == k {
            assert(s[s.len() - 1].key@ == k);
        } else {
            lemma_store_dom(s.drop_last(), k);
            let i = choose|i: int| 0 <= i < s.drop_last().len() && s.drop_last()[i].key@ == k;
            assert(s[i].key@ == k);
        }
    }
}

proof fn lemma_store_push(s: Seq<StoreEntry>, e: StoreEntry)
    ensures
        store_of(s.push(e)) == store_of(s).insert(e.key@, e.data@),
{
    assert(s.push(e).drop_last() =~= s);
    assert(s.push(e).last() == e);
}

proof fn lemma_store_remove(s: Seq<StoreEntry>, i: int)
    requires
        distinct_entry_keys(s),
        0 <= i < s.len(),
    ensures
        store_of(s.remove(i)) == store_of(s).remove(s[i].key@),
        distinct_entry_keys(s.remove(i)),
    decreases s.len(),
{
    assert(distinct_entry_keys(s.remove(i)));
    if i == s.len() - 1 {
        assert(s.remove(i) =~= s.drop_last());
        assert(forall|j: int| 0 <= j < s.drop_last().len() ==> s.drop_last()[j].key@ != s[i].key@);
        lemma_store_absent(s.drop_last(), s[i].key@);
        assert(store_of(s).remove(s[i].key@) =~= store_of(s.drop_last()));
    } else {
        assert(s.remove(i).drop_last() =~= s.drop_last().remove(i));
        assert(s.remove(i).last() == s.last());
        lemma_store_remove(s.drop_last(), i);
        assert(s[i].key@ != s.last().key@);
        assert(store_of(s.drop_last()).remove(s[i].key@).insert(s.last().key@, s.last().data@)
            =~= store_of(s.drop_last()).insert(s.last().key@, s.last().data@).remove(s[i].key@));
    }
}

proof fn lemma_store_insert_at(s: Seq<StoreEntry>, i: int, e: StoreEntry)
    requires
        distinct_entry_keys(s),
        forall|j: int| 0 <= j < s.len() ==> s[j].key@ != e.key@,
        0 <= i <= s.len(),
    ensures
        store_of(s.insert(i, e)) == store_of(s).insert(e.key@, e.data@),
        distinct_entry_keys(s.insert(i, e)),
    decreases s.len(),
{
    assert(distinct_entry_keys(s.insert(i, e)));
    if i == s.len() {
        assert(s.insert(i, e) =~= s.push(e));
        lemma_store_push(s, e);
    } else {
        assert(s.insert(i, e).drop_last() =~= s.drop_last().insert(i, e));
        assert(s.insert(i, e).last() == s.last());
        lemma_store_insert_at(s.drop_last(), i, e);
        assert(s.last().key@ != e.key@);
        assert(store_of(s.drop_last()).insert(e.key@, e.data@).insert(
            s.last().key@,
            s.last().data@,
        ) =~= store_of(s.drop_last()).insert(s.last().key@, s.last().data@).insert(
            e.key@,
            e.data@,
        ));
    }
}

/// A key built from a slash-free namespace lies in that namespace and in
/// no other slash-free one, and its entry-name part is recovered exactly.
pub proof fn lemma_key_ns(ens: Seq<char>, enc: Seq<char>, ns: Seq<char>)
    requires
        ens.len() >= 1,
        forall|i: int| 0 <= i < ens.len() ==> ens[i] != '/',
        ns.len() >= 1,
        forall|i: int| 0 <= i < ns.len() ==> ns[i] != '/',
    ensures
        in_ns(spec_key(ens, enc), ns) <==> ens == ns,
        ens == ns ==> enc_of(spec_key(ens, enc), ns) == enc,
{
    let k = spec_key(ens, enc);
    assert(k.len() == ens.len() + 1 + enc.len());
    assert(k[ens.len() as int] == '/');
    if ens == ns {
        assert(k.take(ns.len() + 1 as int) =~= ns + seq!['/']);
        assert(k.skip(ns.len() + 1 as int) =~= enc);
    } else if in_ns(k, ns) {
        let p = k.take(ns.len() + 1 as int);
        assert(p =~= ns + seq!['/']);
        if ens.len() < ns.len() {
            assert(k[ens.len() as int] == p[ens.len() as int]);
            assert(p[ens.len() as int] == ns[ens.len() as int]);
            assert(false);
        } else if ens.len() > ns.len() {
            assert(k[ns.len() as int] == p[ns.len() as int]);
            assert(k[ns.len() as int] == ens[ns.len() as int]);
            assert(false);
        } else {
            assert(forall|i: int| 0 <= i < ens.len() ==> k[i] == ens[i]);
            assert(forall|i: int| 0 <= i < ns.len() ==> p[i] == ns[i]);
            assert(forall|i: int| 0 <= i < ns.len() + 1 ==> p[i] == k[i]);
            assert(ens =~= ns);
        }
    }
}

/// No key appears twice.
pub open spec fn distinct_seqs(s: Seq<Seq<char>>) -> bool {
    forall|i: int, j: int| 0 <= i < j < s.len() ==> s[i] != s[j]
}

/// Every key selected into a namespace lies in it and comes from the
/// original sequence.
pub proof fn lemma_keys_in_ns_elem(keys: Seq<Seq<char>>, ns: Seq<char>, j: int)
    requires
        0 <= j < keys_in_ns(keys, ns).len(),
    ensures
        in_ns(keys_in_ns(keys, ns)[j], ns),
        exists|i: int| 0 <= i < keys.len() && keys[i] == keys_in_ns(keys, ns)[j],
    decreases keys.len(),
{
    let f = keys_in_ns(keys.drop_last(), ns);
    if j < f.len() {
        lemma_keys_in_ns_elem(keys.drop_last(), ns, j);
        let i = choose|i: int|
            0 <= i < keys.drop_last().len() && keys.drop_last()[i] == keys_in_ns(
                keys.drop_last(),
                ns,
            )[j];
        assert(keys[i] == keys_in_ns(keys, ns)[j]);
    } else {
        assert(keys[keys.len() - 1] == keys_in_ns(keys, ns)[j]);
    }
}

/// Every key of the sequence that lies in the namespace is selected.
pub proof fn lemma_keys_in_ns_complete(keys: Seq<Seq<char>>, ns: Seq<char>, i: int)
    requires
        0 <= i < keys.len(),
        in_ns(keys[i], ns),
    ensures
        keys_in_ns(keys, ns).contains(keys[i]),
    decreases keys.len(),
{
    if i == keys.len() - 1 {
        let f = keys_in_ns(keys, ns);
        assert(f[f.len() - 1] == keys[i]);
    } else {
        lemma_keys_in_ns_complete(keys.drop_last(), ns, i);
        let f = keys_in_ns(keys.drop_last(), ns);
        let j = choose|j: int| 0 <= j < f.len() && f[j] == keys.drop_last()[i];
        assert(keys_in_ns(keys, ns)[j] == keys[i]);
    }
}

/// Selecting a namespace keeps keys distinct.
pub proof fn lemma_keys_in_ns_distinct(keys: Seq<Seq<char>>, ns: Seq<char>)
    requires
        distinct_seqs(keys),
    ensures
        distinct_seqs(keys_in_ns(keys, ns)),
    decreases keys.len(),
{
    if keys.len() > 0 {
        lemma_keys_in_ns_distinct(keys.drop_last(), ns);
        let f = keys_in_ns(keys.drop_last(), ns);
        if in_ns(keys.last(), ns) {
            assert forall|j: int| 0 <= j < f.len() implies f[j] != keys.last() by {
                lemma_keys_in_ns_elem(keys.drop_last(), ns, j);
                let i = choose|i: int|
                    0 <= i < keys.drop_last().len() && keys.drop_last()[i] == f[j];
                assert(keys[i] == f[j]);
                assert(keys[i] != keys[keys.len() - 1]);
            }
            assert(distinct_seqs(keys_in_ns(keys, ns)));
        } else {
            assert(keys_in_ns(keys, ns) == f);
        }
    }
}

/// Every stored entry of a record type's namespace decodes back to an
/// identifier value.
pub open spec fn ns_entries_decodable<T: Store>(store: Map<Seq<char>, Seq<u8>>) -> bool where
    T::Id: Count
 {
    forall|k: Seq<char>|
        #[trigger] store.dom().contains(k) && in_ns(k, T::spec_name())
            ==> spec_dec_id::<T::Id>(enc_of(k, T::spec_name())) is Some
}

/// Whether `idv` is the allocator's answer on a store: zero on an empty
/// or absent namespace, otherwise the successor of the greatest
/// identifier decoded from the namespace's entry names.
pub open spec fn alloc_next<T: Store>(
    store: Map<Seq<char>, Seq<u8>>,
    idv: <T::Id as DeepView>::V,
) -> bool where T::Id: Count {
    &&& ns_entries_decodable::<T>(store)
    &&& forall|k: Seq<char>|
        #[trigger] store.dom().contains(k) && in_ns(k, T::spec_name()) ==> <T::Id as Count>::count_v(
            spec_dec_id::<T::Id>(enc_of(k, T::spec_name()))->Some_0,
        ) < <T::Id as Count>::count_v(idv)
    &&& (<T::Id as Count>::count_v(idv) == 0 || exists|k: Seq<char>|
        #[trigger] store.dom().contains(k) && in_ns(k, T::spec_name()) && <T::Id as Count>::count_v(
            spec_dec_id::<T::Id>(enc_of(k, T::spec_name()))->Some_0,
        ) == <T::Id as Count>::count_v(idv) - 1)
}

/// What the byte codec wrote for a well-formed value, a top-level read of
/// exactly those bytes gives back, consuming them whole.
pub proof fn lemma_store_round_trip<T: Bytes>(v: T::V)
    requires
        T::codec_wf(v),
    ensures
        T::deser(T::ser(v).reverse()) == Ok::<(T::V, Seq<u8>), ErrorKind>((v, Seq::empty())),
{
    T::lemma_round_trip(v, Seq::empty());
    assert(Seq::empty() + T::ser(v).reverse() =~= T::ser(v).reverse());
}

/// An identifier whose encoding is within bounds decodes back to exactly
/// the original value.
pub proof fn lemma_id_round_trip<I: Bytes>(idv: I::V)
    requires
        I::codec_wf(idv),
    ensures
        spec_dec_id::<I>(spec_enc::<I>(idv)) == Some(idv),
{
    crate::hex::lemma_hex_round_trip(I::ser(idv));
    lemma_store_round_trip::<I>(idv);
}

/// The storage engine. Records go in and out through the byte codec; the
/// identifier codec names the entries; the lock table is taken per key
/// around every operation and is free between operations.
pub struct Database {
    path: String,
    entries: Vec<StoreEntry>,
    locks: LockTable,
}

impl Database {
    /// The configured base path, for a file-backed shell.
    pub closed spec fn spec_path(&self) -> Seq<char> {
        self.path@
    }

    /// The stored entries: storage key to stored bytes.
    pub closed spec fn store(&self) -> Map<Seq<char>, Seq<u8>> {
        store_of(self.entries@)
    }

    /// The storage keys in insertion order; `store()` holds exactly them.
    pub closed spec fn key_seq(&self) -> Seq<Seq<char>> {
        self.entries@.map_values(|e: StoreEntry| e.key@)
    }

    /// Entries are internally consistent and no key repeats.
    pub closed spec fn entries_wf(&self) -> bool {
        &&& forall|i: int| 0 <= i < self.entries@.len() ==> entry_wf(#[trigger] self.entries@[i])
        &&& distinct_entry_keys(self.entries@)
    }

    /// Entries are well-formed and no lock is held between operations.
    pub closed spec fn wf(&self) -> bool {
        &&& self.entries_wf()
        &&& self.locks.wf()
        &&& self.locks@ == Map::<Seq<char>, crate::locks::LockState>::empty()
    }

    /// Creates an empty store that a file-backed shell would root at the
    /// given path.
    pub fn new(path: &str) -> (r: Database)
        ensures
            r.wf(),
            r.spec_path() == path@,
            r.store() == Map::<Seq<char>, Seq<u8>>::empty(),
            r.key_seq() == Seq::<Seq<char>>::empty(),
    {
        let r = Database {
            path: String::from_str(path),
            entries: Vec::new(),
            locks: LockTable::new(),
        };
        proof {
            assert(r.key_seq() =~= Seq::<Seq<char>>::empty());
        }
        r
    }

    /// Encodes an identifier for use as an entry name: two hexadecimal
    /// characters per serialized byte. Fails with an encoding error on an
    /// identifier that serializes to no bytes or to more than
    /// [`hex::MAX_ID_BYTES`] of them.
    pub fn encode<I: Bytes>(id: &I) -> (r: Result<String, Error>)
        ensures
            match r {
                Ok(s) => spec_id_ok::<I>(id.deep_view()) && s@ == spec_enc::<I>(id.deep_view()),
                Err(e) => !spec_id_ok::<I>(id.deep_view()) && e.spec_kind() == ErrorKind::Encoding,
            },
    {
        let bytes = id.serialize();
        hex::encode_bytes(&bytes)
    }

    /// Decodes an entry name back to an identifier: hexadecimal characters
    /// to bytes, then the byte codec. Fails with an encoding error on a
    /// name outside the alphabet or of odd length, and with the codec's
    /// error when the bytes do not deserialize.
    pub fn decode<I: Bytes>(string: &String) -> (r: Result<I, Error>)
        ensures
            match hex_decode(string@) {
                None => r matches Err(e) && e.spec_kind() == ErrorKind::Encoding,
                Some(bytes) => match I::deser(bytes.reverse()) {
                    Ok(p) => r matches Ok(v) && v.deep_view() == p.0,
                    Err(k) => r matches Err(e) && e.spec_kind() == k,
                },
            },
    {
        match hex::decode_text(string.as_str()) {
            Err(e) => Err(e),
            Ok(bytes) => {
                let mut buf = reversed(&bytes);
                match I::deserialize(&mut buf) {
                    Ok(v) => Ok(v),
                    Err(e) => Err(e),
                }
            },
        }
    }

    /// The storage key of an identifier under a record type's namespace.
    fn key_for<T: Store>(id: &T::Id) -> (r: Result<(String, String), Error>)
        ensures
            match r {
                Ok(p) => spec_id_ok::<T::Id>(id.deep_view()) && p.0@ == spec_enc::<T::Id>(
                    id.deep_view(),
                ) && p.1@ == spec_key_for::<T>(id.deep_view()),
                Err(e) => !spec_id_ok::<T::Id>(id.deep_view()) && e.spec_kind()
                    == ErrorKind::Encoding,
            },
    {
        let enc = match Self::encode::<T::Id>(id) {
            Ok(enc) => enc,
            Err(e) => {
                return Err(e);
            },
        };
        let mut key = T::name();
        key.append("/");
        key.append(enc.as_str());
        proof {
            reveal_strlit("/");
            assert("/"@ =~= seq!['/']);
            assert(key@ =~= spec_key_for::<T>(id.deep_view()));
        }
        Ok((enc, key))
    }

    /// The position of the entry with a storage key, if one is stored.
    fn find_entry(&self, key: &String) -> (r: Option<usize>)
        requires
            self.entries_wf(),
        ensures
            match r {
                Some(i) => i < self.entries@.len() && self.entries@[i as int].key@ == key@
                    && self.store().dom().contains(key@) && self.store()[key@]
                    == self.entries@[i as int].data@,
                None => !self.store().dom().contains(key@),
            },
    {
        let n = self.entries.len();
        let mut i: usize = 0;
        while i < n
            invariant
                self.entries_wf(),
                n == self.entries@.len(),
                i <= n,
                forall|j: int| 0 <= j < i ==> self.entries@[j].key@ != key@,
            decreases n - i,
        {
            if self.entries[i].key == *key {
                proof {
                    lemma_store_index(self.entries@, i as int);
                }
                return Some(i);
            }
            i = i + 1;
        }
        proof {
            lemma_store_absent(self.entries@, key@);
        }
        None
    }

    /// Whether the store holds an entry for a record's identifier. Fails
    /// only when the identifier cannot be encoded.
    pub fn contains<T: Store>(&self, object: &T) -> (r: Result<bool, Error>)
        requires
            self.wf(),
        ensures
            match r {
                Ok(b) => spec_id_ok::<T::Id>(T::id_v(object.deep_view())) && b
                    == self.store().dom().contains(spec_key_for::<T>(T::id_v(object.deep_view()))),
                Err(e) => !spec_id_ok::<T::Id>(T::id_v(object.deep_view())) && e.spec_kind()
                    == ErrorKind::Encoding,
            },
    {
        let key = match Self::key_for::<T>(object.id()) {
            Ok(p) => p.1,
            Err(e) => {
                return Err(e);
            },
        };
        Ok(self.find_entry(&key).is_some())
    }

    /// Creates the entry for `object` under the given identifier: takes
    /// the key's write lock, refuses a key that is already stored, and
    /// otherwise stores the serialized record.
    fn create_id<T: Store>(&mut self, object: &T, id: &T::Id) -> (r: Result<(), Error>)
        requires
            old(self).wf(),
        ensures
            final(self).wf(),
            final(self).spec_path() == old(self).spec_path(),
            ({
                let idv = id.deep_view();
                let k = spec_key_for::<T>(idv);
                if !spec_id_ok::<T::Id>(idv) {
                    &&& r matches Err(e) && e.spec_kind() == ErrorKind::Encoding
                    &&& final(self).store() == old(self).store()
                    &&& final(self).key_seq() == old(self).key_seq()
                } else if old(self).store().dom().contains(k) {
                    &&& r matches Err(e) && e.spec_kind() == ErrorKind::AlreadyExists
                    &&& final(self).store() == old(self).store()
                    &&& final(self).key_seq() == old(self).key_seq()
                } else {
                    &&& r is Ok
                    &&& final(self).store() == old(self).store().insert(
                        k,
                        T::ser(object.deep_view()),
                    )
                    &&& final(self).key_seq() == old(self).key_seq().push(k)
                }
            }),
    {
        let (enc, key) = match Self::key_for::<T>(id) {
            Ok(p) => p,
            Err(e) => {
                return Err(e);
            },
        };
        let acquired = self.locks.try_acquire_write(&key);
        proof {
            assert(acquired);
        }
        let result = match self.find_entry(&key) {
            Some(_) => Err(Error::with_kind(
                ErrorKind::AlreadyExists,
                String::from_str("an entry with this identifier already exists"),
            )),
            None => {
                let data = object.serialize();
                let entry = StoreEntry { ns: T::name(), enc, key: key.clone(), data };
                proof {
                    T::lemma_name_valid();
                    reveal_strlit("/");
                    assert(entry.key@ =~= spec_key(entry.ns@, entry.enc@));
                    assert(entry_wf(entry));
                    assert forall|j: int|
                        0 <= j < self.entries@.len() implies self.entries@[j].key@ != key@ by {
                        lemma_store_index(self.entries@, j);
                    }
                    lemma_store_push(self.entries@, entry);
                    assert(distinct_entry_keys(self.entries@.push(entry)));
                    assert(self.entries@.push(entry).map_values(|e: StoreEntry| e.key@)
                        =~= self.entries@.map_values(|e: StoreEntry| e.key@).push(key@));
                }
                self.entries.push(entry);
                Ok(())
            },
        };
        self.locks.release_write(&key);
        proof {
            assert(self.locks@ =~= Map::<Seq<char>, crate::locks::LockState>::empty());
        }
        result
    }

    /// Creates an entry for a record under its own identifier. Fails with
    /// an already-exists error when the key is stored, and with an
    /// encoding error when the identifier cannot be encoded.
    pub fn create<T: Store>(&mut self, object: &T) -> (r: Result<(), Error>)
        requires
            old(self).wf(),
        ensures
            final(self).wf(),
            final(self).spec_path() == old(self).spec_path(),
            ({
                let idv = T::id_v(object.deep_view());
                let k = spec_key_for::<T>(idv);
                if !spec_id_ok::<T::Id>(idv) {
                    &&& r matches Err(e) && e.spec_kind() == ErrorKind::Encoding
                    &&& final(self).store() == old(self).store()
                    &&& final(self).key_seq() == old(self).key_seq()
                } else if old(self).store().dom().contains(k) {
                    &&& r matches Err(e) && e.spec_kind() == ErrorKind::AlreadyExists
                    &&& final(self).store() == old(self).store()
                    &&& final(self).key_seq() == old(self).key_seq()
                } else {
                    &&& r is Ok
                    &&& final(self).store() == old(self).store().insert(
                        k,
                        T::ser(object.deep_view()),
                    )
                    &&& final(self).key_seq() == old(self).key_seq().push(k)
                }
            }),
    {
        let id = object.id();
        self.create_id(object, id)
    }

    /// Reads the entry with the given name in the record type's
    /// namespace: takes the key's read lock, fails on an absent key, and
    /// otherwise deserializes the stored bytes.
    fn read_encoded<T: Store>(&mut self, encoded: String) -> (r: Result<T, Error>)
        requires
            old(self).wf(),
        ensures
            final(self).wf(),
            final(self).spec_path() == old(self).spec_path(),
            final(self).store() == old(self).store(),
            final(self).key_seq() == old(self).key_seq(),
            ({
                let k = spec_key(T::spec_name(), encoded@);
                if !old(self).store().dom().contains(k) {
                    r matches Err(e) && e.spec_kind() == ErrorKind::NotFound
                } else {
                    match T::deser(old(self).store()[k].reverse()) {
                        Ok(p) => r matches Ok(x) && x.deep_view() == p.0,
                        Err(kd) => r matches Err(e) && e.spec_kind() == kd,
                    }
                }
            }),
    {
        let mut key = T::name();
        key.append("/");
        key.append(encoded.as_str());
        proof {
            reveal_strlit("/");
            assert(key@ =~= spec_key(T::spec_name(), encoded@));
        }
        let acquired = self.locks.try_acquire_read(&key);
        proof {
            assert(acquired);
        }
        let result = match self.find_entry(&key) {
            None => Err(Error::with_kind(
                ErrorKind::NotFound,
                String::from_str("no entry with this identifier is stored"),
            )),
            Some(i) => {
                let e = &self.entries[i];
                let mut buf = reversed(&e.data);
                match T::deserialize(&mut buf) {
                    Ok(v) => Ok(v),
                    Err(e) => Err(e),
                }
            },
        };
        self.locks.release_read(&key);
        proof {
            assert(self.locks@ =~= Map::<Seq<char>, crate::locks::LockState>::empty());
        }
        result
    }

    /// Reads the record stored under an identifier. Fails with a
    /// not-found error on an absent key, with an encoding error when the
    /// identifier cannot be encoded, and with the codec's error when the
    /// stored bytes do not deserialize (a schema mismatch among them).
    pub fn read<T: Store>(&mut self, id: &T::Id) -> (r: Result<T, Error>)
        requires
            old(self).wf(),
        ensures
            final(self).wf(),
            final(self).spec_path() == old(self).spec_path(),
            final(self).store() == old(self).store(),
            final(self).key_seq() == old(self).key_seq(),
            ({
                let idv = id.deep_view();
                let k = spec_key_for::<T>(idv);
                if !spec_id_ok::<T::Id>(idv) {
                    r matches Err(e) && e.spec_kind() == ErrorKind::Encoding
                } else if !old(self).store().dom().contains(k) {
                    r matches Err(e) && e.spec_kind() == ErrorKind::NotFound
                } else {
                    match T::deser(old(self).store()[k].reverse()) {
                        Ok(p) => r matches Ok(x) && x.deep_view() == p.0,
                        Err(kd) => r matches Err(e) && e.spec_kind() == kd,
                    }
                }
            }),
    {
        let enc = match Self::encode::<T::Id>(id) {
            Ok(enc) => enc,
            Err(e) => {
                return Err(e);
            },
        };
        self.read_encoded::<T>(enc)
    }

    /// Overwrites the entry of a record that is already stored: takes the
    /// key's write lock, fails on an absent key, and otherwise replaces
    /// the stored bytes with the record's serialization.
    pub fn update<T: Store>(&mut self, object: &T) -> (r: Result<(), Error>)
        requires
            old(self).wf(),
        ensures
            final(self).wf(),
            final(self).spec_path() == old(self).spec_path(),
            ({
                let idv = T::id_v(object.deep_view());
                let k = spec_key_for::<T>(idv);
                if !spec_id_ok::<T::Id>(idv) {
                    &&& r matches Err(e) && e.spec_kind() == ErrorKind::Encoding
                    &&& final(self).store() == old(self).store()
                    &&& final(self).key_seq() == old(self).key_seq()
                } else if !old(self).store().dom().contains(k) {
                    &&& r matches Err(e) && e.spec_kind() == ErrorKind::NotFound
                    &&& final(self).store() == old(self).store()
                    &&& final(self).key_seq() == old(self).key_seq()
                } else {
                    &&& r is Ok
                    &&& final(self).store() == old(self).store().insert(
                        k,
                        T::ser(object.deep_view()),
                    )
                    &&& final(self).key_seq() == old(self).key_seq()
                }
            }),
    {
        let (enc, key) = match Self::key_for::<T>(object.id()) {
            Ok(p) => p,
            Err(e) => {
                return Err(e);
            },
        };
        let acquired = self.locks.try_acquire_write(&key);
        proof {
            assert(acquired);
        }
        let result = match self.find_entry(&key) {
            None => Err(Error::with_kind(
                ErrorKind::NotFound,
                String::from_str("no entry with this identifier is stored"),
            )),
            Some(i) => {
                let ghost pre = self.entries@;
                proof {
                    lemma_store_remove(self.entries@, i as int);
                }
                let mut e = self.entries.remove(i);
                e.data = object.serialize();
                proof {
                    assert(forall|j: int|
                        0 <= j < self.entries@.len() ==> self.entries@[j].key@ != e.key@) by {
                        assert(forall|j: int|
                            0 <= j < pre.remove(i as int).len() ==> pre.remove(i as int)[j].key@
                                != pre[i as int].key@);
                    }
                    lemma_store_insert_at(self.entries@, i as int, e);
                    assert(old(self).store().remove(key@).insert(key@, e.data@)
                        =~= old(self).store().insert(key@, e.data@));
                }
                self.entries.insert(i, e);
                proof {
                    assert(self.entries@.map_values(|en: StoreEntry| en.key@) =~= pre.map_values(
                        |en: StoreEntry| en.key@,
                    ));
                }
                Ok(())
            },
        };
        self.locks.release_write(&key);
        proof {
            assert(self.locks@ =~= Map::<Seq<char>, crate::locks::LockState>::empty());
        }
        result
    }

    /// Creates the entry if its key is absent, overwrites it otherwise.
    /// The existence check and the following operation are two steps, as
    /// the documented semantics of this operation demand.
    pub fn create_or_update<T: Store>(&mut self, object: &T) -> (r: Result<(), Error>)
        requires
            old(self).wf(),
        ensures
            final(self).wf(),
            final(self).spec_path() == old(self).spec_path(),
            ({
                let idv = T::id_v(object.deep_view());
                let k = spec_key_for::<T>(idv);
                if !spec_id_ok::<T::Id>(idv) {
                    &&& r matches Err(e) && e.spec_kind() == ErrorKind::Encoding
                    &&& final(self).store() == old(self).store()
                    &&& final(self).key_seq() == old(self).key_seq()
                } else {
                    &&& r is Ok
                    &&& final(self).store() == old(self).store().insert(
                        k,
                        T::ser(object.deep_view()),
                    )
                    &&& final(self).key_seq() == if old(self).store().dom().contains(k) {
                        old(self).key_seq()
                    } else {
                        old(self).key_seq().push(k)
                    }
                }
            }),
    {
        let stored = match self.contains(object) {
            Ok(b) => b,
            Err(e) => {
                return Err(e);
            },
        };
        if stored {
            self.update(object)
        } else {
            self.create(object)
        }
    }

    /// Deletes the entry with the given name in the record type's
    /// namespace: takes the key's write lock, fails on an absent key, and
    /// otherwise removes the entry.
    fn delete_encoded<T: Store>(&mut self, encoded: String) -> (r: Result<(), Error>)
        requires
            old(self).wf(),
        ensures
            final(self).wf(),
            final(self).spec_path() == old(self).spec_path(),
            ({
                let k = spec_key(T::spec_name(), encoded@);
                if !old(self).store().dom().contains(k) {
                    &&& r matches Err(e) && e.spec_kind() == ErrorKind::NotFound
                    &&& final(self).store() == old(self).store()
                    &&& final(self).key_seq() == old(self).key_seq()
                } else {
                    &&& r is Ok
                    &&& final(self).store() == old(self).store().remove(k)
                    &&& exists|j: int|
                        0 <= j < old(self).key_seq().len() && old(self).key_seq()[j] == k
                            && final(self).key_seq() == old(self).key_seq().remove(j)
                }
            }),
    {
        let mut key = T::name();
        key.append("/");
        key.append(encoded.as_str());
        proof {
            reveal_strlit("/");
            assert(key@ =~= spec_key(T::spec_name(), encoded@));
        }
        let acquired = self.locks.try_acquire_write(&key);
        proof {
            assert(acquired);
        }
        let result = match self.find_entry(&key) {
            None => Err(Error::with_kind(
                ErrorKind::NotFound,
                String::from_str("no entry with this identifier is stored"),
            )),
            Some(i) => {
                let ghost pre = self.entries@;
                proof {
                    lemma_store_remove(self.entries@, i as int);
                }
                self.entries.remove(i);
                proof {
                    let k = spec_key(T::spec_name(), encoded@);
                    assert(self.entries@.map_values(|en: StoreEntry| en.key@) =~= pre.map_values(
                        |en: StoreEntry| en.key@,
                    ).remove(i as int));
                    assert(0 <= (i as int) && (i as int) < old(self).key_seq().len());
                    assert(old(self).key_seq()[i as int] == k);
                    assert(self.entries@.map_values(|en: StoreEntry| en.key@) == old(
                        self,
                    ).key_seq().remove(i as int));
                }
                Ok(())
            },
        };
        self.locks.release_write(&key);
        proof {
            assert(self.locks@ =~= Map::<Seq<char>, crate::locks::LockState>::empty());
        }
        result
    }

    /// Deletes the entry stored under an identifier. Fails with a
    /// not-found error on an absent key and with an encoding error when
    /// the identifier cannot be encoded.
    pub fn delete<T: Store>(&mut self, id: &T::Id) -> (r: Result<(), Error>)
        requires
            old(self).wf(),
        ensures
            final(self).wf(),
            final(self).spec_path() == old(self).spec_path(),
            ({
                let idv = id.deep_view();
                let k = spec_key_for::<T>(idv);
                if !spec_id_ok::<T::Id>(idv) {
                    &&& r matches Err(e) && e.spec_kind() == ErrorKind::Encoding
                    &&& final(self).store() == old(self).store()
                    &&& final(self).key_seq() == old(self).key_seq()
                } else if !old(self).store().dom().contains(k) {
                    &&& r matches Err(e) && e.spec_kind() == ErrorKind::NotFound
                    &&& final(self).store() == old(self).store()
                    &&& final(self).key_seq() == old(self).key_seq()
                } else {
                    &&& r is Ok
                    &&& final(self).store() == old(self).store().remove(k)
                    &&& exists|j: int|
                        0 <= j < old(self).key_seq().len() && old(self).key_seq()[j] == k
                            && final(self).key_seq() == old(self).key_seq().remove(j)
                }
            }),
    {
        let enc = match Self::encode::<T::Id>(id) {
            Ok(enc) => enc,
            Err(e) => {
                return Err(e);
            },
        };
        self.delete_encoded::<T>(enc)
    }

    /// The next free identifier for a record type's namespace: decodes
    /// every stored entry name, tracks the greatest value, and returns its
    /// successor, or the first value on an empty namespace. Fails when an
    /// entry name does not decode or when the greatest identifier has no
    /// successor.
    fn next_id<T: Store>(&self) -> (r: Result<T::Id, Error>) where T::Id: Count
        requires
            self.wf(),
        ensures
            match r {
                Ok(id) => alloc_next::<T>(self.store(), id.deep_view()),
                Err(e) => (e.spec_kind() == ErrorKind::Encoding && !ns_entries_decodable::<T>(
                    self.store(),
                )) || (e.spec_kind() == ErrorKind::Other && exists|k: Seq<char>|
                    #[trigger] self.store().dom().contains(k) && in_ns(k, T::spec_name()) && (
                    spec_dec_id::<T::Id>(enc_of(k, T::spec_name())) matches Some(v)
                        && <T::Id as Count>::count_v(v) == <T::Id as Count>::max_count())),
            },
    {
        let ns = T::name();
        let mut out: T::Id = <T::Id as Count>::first();
        let n = self.entries.len();
        let mut i: usize = 0;
        proof {
            T::lemma_name_valid();
        }
        while i < n
            invariant
                self.wf(),
                ns@ == T::spec_name(),
                n == self.entries@.len(),
                i <= n,
                forall|j: int|
                    0 <= j < i && (#[trigger] self.entries@[j]).ns@ == T::spec_name() ==> (
                    spec_dec_id::<T::Id>(self.entries@[j].enc@) matches Some(v)
                        && <T::Id as Count>::count_v(v) < <T::Id as Count>::count_v(
                        out.deep_view(),
                    )),
                <T::Id as Count>::count_v(out.deep_view()) == 0 || exists|j: int|
                    0 <= j < i && (#[trigger] self.entries@[j]).ns@ == T::spec_name() && (
                    spec_dec_id::<T::Id>(self.entries@[j].enc@) matches Some(v)
                        && <T::Id as Count>::count_v(v) == <T::Id as Count>::count_v(
                        out.deep_view(),
                    ) - 1),
            decreases n - i,
        {
            let e = &self.entries[i];
            if e.ns == ns {
                let value: T::Id = match Self::decode::<T::Id>(&e.enc) {
                    Ok(v) => v,
                    Err(_) => {
                        proof {
                            lemma_store_index(self.entries@, i as int);
                            let ei = self.entries@[i as int];
                            lemma_key_ns(ei.ns@, ei.enc@, T::spec_name());
                            assert(self.store().dom().contains(ei.key@) && in_ns(
                                ei.key@,
                                T::spec_name(),
                            ) && spec_dec_id::<T::Id>(enc_of(ei.key@, T::spec_name())) is None);
                        }
                        return Err(Error::with_kind(
                            ErrorKind::Encoding,
                            String::from_str("a stored entry name does not decode"),
                        ));
                    },
                };
                if value.ge(&out) {
                    if value.is_max() {
                        proof {
                            lemma_store_index(self.entries@, i as int);
                            let ei = self.entries@[i as int];
                            lemma_key_ns(ei.ns@, ei.enc@, T::spec_name());
                            assert(self.store().dom().contains(ei.key@) && in_ns(
                                ei.key@,
                                T::spec_name(),
                            ));
                        }
                        return Err(Error::with_kind(
                            ErrorKind::Other,
                            String::from_str("the identifier space of this namespace is used up"),
                        ));
                    }
                    proof {
                        <T::Id as Count>::lemma_count_in_range(value.deep_view());
                    }
                    out = value.next();
                }
            }
            i = i + 1;
        }
        proof {
            let c = <T::Id as Count>::count_v(out.deep_view());
            assert forall|k: Seq<char>|
                #[trigger] self.store().dom().contains(k) && in_ns(
                    k,
                    T::spec_name(),
                ) implies spec_dec_id::<T::Id>(enc_of(k, T::spec_name())) is Some
                && <T::Id as Count>::count_v(
                spec_dec_id::<T::Id>(enc_of(k, T::spec_name()))->Some_0,
            ) < c by {
                lemma_store_dom(self.entries@, k);
                let j = choose|j: int| 0 <= j < self.entries@.len() && self.entries@[j].key@ == k;
                let ej = self.entries@[j];
                lemma_key_ns(ej.ns@, ej.enc@, T::spec_name());
                assert(ej.ns@ == T::spec_name());
                assert(enc_of(k, T::spec_name()) == ej.enc@);
            }
            if c != 0 {
                let j = choose|j: int|
                    0 <= j < self.entries@.len() && (#[trigger] self.entries@[j]).ns@
                        == T::spec_name() && (spec_dec_id::<T::Id>(self.entries@[j].enc@) matches
                    Some(v) && <T::Id as Count>::count_v(v) == c - 1);
                let ej = self.entries@[j];
                lemma_store_index(self.entries@, j);
                lemma_key_ns(ej.ns@, ej.enc@, T::spec_name());
                assert(self.store().dom().contains(ej.key@) && in_ns(ej.key@, T::spec_name())
                    && <T::Id as Count>::count_v(
                    spec_dec_id::<T::Id>(enc_of(ej.key@, T::spec_name()))->Some_0,
                ) == c - 1);
            }
        }
        Ok(out)
    }

    /// Allocates the next free identifier in the record type's namespace
    /// and creates the record with that identifier substituted. The
    /// allocation and the create are two steps: under outside concurrency
    /// a caller retries on an already-exists failure.
    pub fn create_auto<T: Store>(&mut self, object: &T) -> (r: Result<(), Error>) where
        T::Id: Count,

        requires
            old(self).wf(),
        ensures
            final(self).wf(),
            final(self).spec_path() == old(self).spec_path(),
            match r {
                Ok(p) => exists|idv: <T::Id as DeepView>::V|
                    {
                        &&& #[trigger] alloc_next::<T>(old(self).store(), idv)
                        &&& spec_id_ok::<T::Id>(idv)
                        &&& !old(self).store().dom().contains(spec_key_for::<T>(idv))
                        &&& final(self).store() == old(self).store().insert(
                            spec_key_for::<T>(idv),
                            T::ser(T::with_id_v(object.deep_view(), idv)),
                        )
                        &&& final(self).key_seq() == old(self).key_seq().push(
                            spec_key_for::<T>(idv),
                        )
                    },
                Err(e) => {
                    &&& final(self).store() == old(self).store()
                    &&& final(self).key_seq() == old(self).key_seq()
                    &&& (e.spec_kind() == ErrorKind::Encoding ==> (!ns_entries_decodable::<T>(
                        old(self).store(),
                    ) || exists|idv: <T::Id as DeepView>::V|
                        #[trigger] alloc_next::<T>(old(self).store(), idv) && !spec_id_ok::<
                            T::Id,
                        >(idv)))
                    &&& (e.spec_kind() == ErrorKind::Other ==> exists|k: Seq<char>|
                        #[trigger] old(self).store().dom().contains(k) && in_ns(
                            k,
                            T::spec_name(),
                        ) && (spec_dec_id::<T::Id>(enc_of(k, T::spec_name())) matches Some(v)
                            && <T::Id as Count>::count_v(v) == <T::Id as Count>::max_count()))
                    &&& (e.spec_kind() == ErrorKind::AlreadyExists ==> exists|
                        idv: <T::Id as DeepView>::V,
                    |
                        #[trigger] alloc_next::<T>(old(self).store(), idv)
                            && old(self).store().dom().contains(spec_key_for::<T>(idv)))
                    &&& (e.spec_kind() == ErrorKind::Encoding || e.spec_kind() == ErrorKind::Other
                        || e.spec_kind() == ErrorKind::AlreadyExists)
                },
            },
    {
        let id: T::Id = match self.next_id::<T>() {
            Ok(id) => id,
            Err(e) => {
                return Err(e);
            },
        };
        let replaced = object.with_id(&id);
        proof {
            T::lemma_with_id(object.deep_view(), id.deep_view());
        }
        self.create_id(&replaced, &id)
    }

    /// The two faces of the view agree: the store holds exactly the keys
    /// of the key sequence, and no key appears in it twice.
    pub proof fn lemma_view_agreement(&self)
        requires
            self.wf(),
        ensures
            distinct_seqs(self.key_seq()),
            forall|k: Seq<char>|
                #[trigger] self.store().dom().contains(k) <==> exists|i: int|
                    0 <= i < self.key_seq().len() && self.key_seq()[i] == k,
    {
        assert forall|k: Seq<char>| #[trigger]
            self.store().dom().contains(k) implies exists|i: int|
            0 <= i < self.key_seq().len() && self.key_seq()[i] == k by {
            lemma_store_dom(self.entries@, k);
            let i = choose|i: int| 0 <= i < self.entries@.len() && self.entries@[i].key@ == k;
            assert(self.key_seq()[i] == k);
        }
        assert forall|k: Seq<char>|
            (exists|i: int|
                0 <= i < self.key_seq().len() && self.key_seq()[i] == k) implies #[trigger]
            self.store().dom().contains(k) by {
            let i = choose|i: int| 0 <= i < self.key_seq().len() && self.key_seq()[i] == k;
            lemma_store_index(self.entries@, i);
        }
    }

    /// Reads every record of the record type's namespace, each under its
    /// own read lock, in storage order. Fails with the codec's error as
    /// soon as one stored entry does not deserialize.
    pub fn read_all<T: Store>(&mut self) -> (r: Result<Vec<T>, Error>)
        requires
            old(self).wf(),
        ensures
            final(self).wf(),
            final(self).spec_path() == old(self).spec_path(),
            final(self).store() == old(self).store(),
            final(self).key_seq() == old(self).key_seq(),
            ({
                let ks = keys_in_ns(old(self).key_seq(), T::spec_name());
                match r {
                    Ok(vs) => vs@.len() == ks.len() && forall|i: int|
                        0 <= i < ks.len() ==> (T::deser(old(self).store()[ks[i]].reverse()) matches
                            Ok(p) && (#[trigger] vs@[i]).deep_view() == p.0),
                    Err(e) => exists|i: int|
                        0 <= i < ks.len() && (T::deser(
                            old(self).store()[#[trigger] ks[i]].reverse(),
                        ) matches Err(kd) && e.spec_kind() == kd),
                }
            }),
    {
        let ns = T::name();
        proof {
            T::lemma_name_valid();
        }
        let encs = self.collect_ns_entry_names::<T>(&ns);
        let ghost ks = keys_in_ns(self.key_seq(), T::spec_name());
        let ghost store0 = self.store();
        proof {
            self.lemma_view_agreement();
            assert forall|t: int| 0 <= t < ks.len() implies store0.dom().contains(
                #[trigger] ks[t],
            ) by {
                lemma_keys_in_ns_elem(self.key_seq(), T::spec_name(), t);
            }
        }
        let m = encs.len();
        let mut out: Vec<T> = Vec::new();
        let mut j: usize = 0;
        while j < m
            invariant
                self.wf(),
                self.spec_path() == old(self).spec_path(),
                self.store() == old(self).store(),
                self.key_seq() == old(self).key_seq(),
                store0 == old(self).store(),
                ks == keys_in_ns(old(self).key_seq(), T::spec_name()),
                ns@ == T::spec_name(),
                m == encs@.len(),
                ks.len() == m,
                forall|t: int|
                    0 <= t < m ==> ks[t] == spec_key(T::spec_name(), (#[trigger] encs@[t])@),
                forall|t: int| 0 <= t < ks.len() ==> store0.dom().contains(#[trigger] ks[t]),
                j <= m,
                out@.len() == j,
                forall|t: int|
                    0 <= t < j ==> (T::deser(store0[#[trigger] ks[t]].reverse()) matches Ok(p)
                        && out@[t].deep_view() == p.0),
            decreases m - j,
        {
            let enc = encs[j].clone();
            proof {
                assert(enc@ == encs@[j as int]@);
            }
            match self.read_encoded::<T>(enc) {
                Ok(v) => {
                    out.push(v);
                    proof {
                        let k = spec_key(T::spec_name(), encs@[j as int]@);
                        assert(ks[j as int] == k);
                        assert(store0.dom().contains(k));
                        assert(T::deser(store0[k].reverse()) is Ok);
                        assert(out@[j as int].deep_view() == T::deser(
                            store0[k].reverse(),
                        )->Ok_0.0);
                    }
                },
                Err(e) => {
                    return Err(e);
                },
            }
            j = j + 1;
        }
        Ok(out)
    }

    /// The entry names of every stored entry of a namespace, in storage
    /// order.
    fn collect_ns_entry_names<T: Store>(&self, ns: &String) -> (r: Vec<String>)
        requires
            self.wf(),
            ns@ == T::spec_name(),
            T::spec_name().len() >= 1,
            forall|i: int| 0 <= i < T::spec_name().len() ==> T::spec_name()[i] != '/',
        ensures
            keys_in_ns(self.key_seq(), T::spec_name()) == r@.map_values(
                |s: String| spec_key(T::spec_name(), s@),
            ),
    {
        let mut encs: Vec<String> = Vec::new();
        let n = self.entries.len();
        let mut i: usize = 0;
        proof {
            assert(self.key_seq().take(0) =~= Seq::<Seq<char>>::empty());
            assert(keys_in_ns(self.key_seq().take(0), T::spec_name()) =~= encs@.map_values(
                |s: String| spec_key(T::spec_name(), s@),
            ));
        }
        while i < n
            invariant
                self.wf(),
                ns@ == T::spec_name(),
                T::spec_name().len() >= 1,
                forall|t: int| 0 <= t < T::spec_name().len() ==> T::spec_name()[t] != '/',
                n == self.entries@.len(),
                i <= n,
                keys_in_ns(self.key_seq().take(i as int), T::spec_name()) == encs@.map_values(
                    |s: String| spec_key(T::spec_name(), s@),
                ),
            decreases n - i,
        {
            let e = &self.entries[i];
            proof {
                assert(self.key_seq().take(i + 1).drop_last() =~= self.key_seq().take(i as int));
                assert(self.key_seq().take(i + 1).last() == self.entries@[i as int].key@);
                lemma_key_ns(
                    self.entries@[i as int].ns@,
                    self.entries@[i as int].enc@,
                    T::spec_name(),
                );
            }
            if e.ns == *ns {
                encs.push(e.enc.clone());
                proof {
                    assert(keys_in_ns(self.key_seq().take(i + 1), T::spec_name()) =~= encs@
                        .map_values(|s: String| spec_key(T::spec_name(), s@)));
                }
            } else {
                proof {
                    assert(keys_in_ns(self.key_seq().take(i + 1), T::spec_name()) =~= encs@
                        .map_values(|s: String| spec_key(T::spec_name(), s@)));
                }
            }
            i = i + 1;
        }
        proof {
            assert(self.key_seq().take(n as int) =~= self.key_seq());
        }
        encs
    }

    /// Deletes every stored entry of the record type's namespace, each
    /// under its own write lock. Entries of other namespaces are kept
    /// untouched.
    pub fn delete_all<T: Store>(&mut self) -> (r: Result<(), Error>)
        requires
            old(self).wf(),
        ensures
            final(self).wf(),
            final(self).spec_path() == old(self).spec_path(),
            r is Ok,
            forall|k: Seq<char>|
                #[trigger] final(self).store().dom().contains(k) <==> (old(
                    self,
                ).store().dom().contains(k) && !in_ns(k, T::spec_name())),
            forall|k: Seq<char>|
                #[trigger] final(self).store().dom().contains(k) ==> final(self).store()[k] == old(
                    self,
                ).store()[k],
    {
        let ns = T::name();
        proof {
            T::lemma_name_valid();
        }
        let encs = self.collect_ns_entry_names::<T>(&ns);
        let ghost ks = keys_in_ns(self.key_seq(), T::spec_name());
        proof {
            self.lemma_view_agreement();
            lemma_keys_in_ns_distinct(self.key_seq(), T::spec_name());
            assert forall|t: int| 0 <= t < ks.len() implies old(self).store().dom().contains(
                #[trigger] ks[t],
            ) && in_ns(ks[t], T::spec_name()) by {
                lemma_keys_in_ns_elem(self.key_seq(), T::spec_name(), t);
            }
        }
        let m = encs.len();
        let mut j: usize = 0;
        while j < m
            invariant
                self.wf(),
                self.spec_path() == old(self).spec_path(),
                ks == keys_in_ns(old(self).key_seq(), T::spec_name()),
                distinct_seqs(ks),
                ns@ == T::spec_name(),
                m == encs@.len(),
                ks.len() == m,
                forall|t: int|
                    0 <= t < m ==> ks[t] == spec_key(T::spec_name(), (#[trigger] encs@[t])@),
                forall|t: int|
                    0 <= t < ks.len() ==> old(self).store().dom().contains(#[trigger] ks[t])
                        && in_ns(ks[t], T::spec_name()),
                j <= m,
                forall|k: Seq<char>|
                    #[trigger] self.store().dom().contains(k) <==> (old(
                        self,
                    ).store().dom().contains(k) && !ks.take(j as int).contains(k)),
                forall|k: Seq<char>|
                    #[trigger] self.store().dom().contains(k) ==> self.store()[k] == old(
                        self,
                    ).store()[k],
            decreases m - j,
        {
            proof {
                assert(ks.take(j as int).len() == j);
                assert(!ks.take(j as int).contains(ks[j as int])) by {
                    if ks.take(j as int).contains(ks[j as int]) {
                        let t = choose|t: int|
                            0 <= t < j && #[trigger] ks.take(j as int)[t] == ks[j as int];
                        assert(ks[t] == ks[j as int]);
                    }
                }
                assert(self.store().dom().contains(ks[j as int]));
            }
            let enc = encs[j].clone();
            let ghost pre = self.store();
            match self.delete_encoded::<T>(enc) {
                Ok(u) => u,
                Err(e) => {
                    proof {
                        assert(false);
                    }
                    return Err(e);
                },
            };
            proof {
                assert(ks.take(j + 1).drop_last() =~= ks.take(j as int));
                assert(ks.take(j + 1).last() == ks[j as int]);
                assert forall|k: Seq<char>|
                    #[trigger] ks.take(j + 1).contains(k) <==> (ks.take(j as int).contains(k) || k
                        == ks[j as int]) by {
                    if ks.take(j + 1).contains(k) {
                        let t = choose|t: int| 0 <= t < j + 1 && #[trigger] ks.take(j + 1)[t] == k;
                        if t < j {
                            assert(ks.take(j as int)[t] == k);
                        }
                    }
                    if ks.take(j as int).contains(k) {
                        let t = choose|t: int| 0 <= t < j && #[trigger] ks.take(j as int)[t] == k;
                        assert(ks.take(j + 1)[t] == k);
                    }
                    if k == ks[j as int] {
                        assert(ks.take(j + 1)[j as int] == k);
                    }
                }
            }
            j = j + 1;
        }
        proof {
            assert(ks.take(m as int) =~= ks);
            assert forall|k: Seq<char>|
                #[trigger] self.store().dom().contains(k) <==> (old(
                    self,
                ).store().dom().contains(k) && !in_ns(k, T::spec_name())) by {
                if old(self).store().dom().contains(k) {
                    if in_ns(k, T::spec_name()) {
                        self.lemma_view_agreement();
                        let i = choose|i: int|
                            0 <= i < old(self).key_seq().len() && old(self).key_seq()[i] == k;
                        lemma_keys_in_ns_complete(old(self).key_seq(), T::spec_name(), i);
                    }
                }
            }
        }
        Ok(())
    }
}

} // verus!

