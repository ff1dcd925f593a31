//! Ready-made record types: a person addressed by name, with an older
//! layout it can migrate from, and two single-field numeric records for
//! auto-increment allocation.
//!
//! They double as a worked example of the record interface: a serialized
//! record is its schema hash followed by each field's encoding in
//! declaration order, and reading a record first compares the stored hash
//! against the current layout, then against each declared predecessor.

use vstd::prelude::*;
use crate::bytes::Bytes;
use crate::bytes::copied;
use crate::bytes::le_bytes;
use crate::bytes::nul_free;
use crate::error::Error;
use crate::error::ErrorKind;
use crate::hashing::sig_hash;
use crate::hashing::DIGEST_BASIS;
use crate::hashing::hash_signature;
use crate::store::Store;
use vstd::string::StringExecFns;

verus! {

/// A person record: the name is the identifier, the age a payload field.
#[derive(Debug, Clone)]
pub struct Person {
    pub name: String,
    pub age: u16,
}

/// The abstraction of a [`Person`]: its fields' abstractions.
pub struct PersonV {
    pub name: Seq<char>,
    pub age: u16,
}

/// An older layout of [`Person`] that carried one more text field. The
/// current layout declares it as its predecessor and upgrades from it on
/// read.
#[derive(Debug)]
pub struct Person2 {
    pub name: String,
    pub age: u16,
    pub text: String,
}

/// The abstraction of a [`Person2`]: its fields' abstractions.
pub struct Person2V {
    pub name: Seq<char>,
    pub age: u16,
    pub text: Seq<char>,
}

/// The upgrade a [`Person`] applies to a predecessor value: the shared
/// fields carry over, the dropped field is forgotten.
pub open spec fn person_from_v(v: Person2V) -> PersonV {
    PersonV { name: v.name, age: v.age }
}

impl Person {
    pub fn new(name: &str, age: u16) -> (r: Person)
        ensures
            r.deep_view() == (PersonV { name: name@, age }),
    {
        Person { name: String::from_str(name), age }
    }
}

impl DeepView for Person {
    type V = PersonV;

    open spec fn deep_view(&self) -> PersonV {
        PersonV { name: self.name@, age: self.age }
    }
}

impl DeepView for Person2 {
    type V = Person2V;

    open spec fn deep_view(&self) -> Person2V {
        Person2V { name: self.name@, age: self.age, text: self.text@ }
    }
}

impl PartialEq for Person {
    fn eq(&self, other: &Person) -> (r: bool) {
        self.name == other.name && self.age == other.age
    }
}

impl vstd::std_specs::cmp::PartialEqSpecImpl for Person {
    open spec fn obeys_eq_spec() -> bool {
        true
    }

    open spec fn eq_spec(&self, other: &Person) -> bool {
        self.name@ == other.name@ && self.age == other.age
    }
}

impl PartialEq for Person2 {
    fn eq(&self, other: &Person2) -> (r: bool) {
        self.name == other.name && self.age == other.age && self.text == other.text
    }
}

impl vstd::std_specs::cmp::PartialEqSpecImpl for Person2 {
    open spec fn obeys_eq_spec() -> bool {
        true
    }

    open spec fn eq_spec(&self, other: &Person2) -> bool {
        self.name@ == other.name@ && self.age == other.age && self.text@ == other.text@
    }
}

impl From<Person2> for Person {
    /// The registered upgrade from the predecessor layout.
    fn from(old2: Person2) -> (r: Person) {
        Person { name: old2.name, age: old2.age }
    }
}

impl vstd::std_specs::convert::FromSpecImpl<Person2> for Person {
    open spec fn obeys_from_spec() -> bool {
        true
    }

    open spec fn from_spec(v: Person2) -> Person {
        Person { name: v.name, age: v.age }
    }
}

impl From<Person> for Person2 {
    /// The downgrade, for writing records in the older layout.
    fn from(p: Person) -> (r: Person2) {
        Person2 { name: p.name, age: p.age, text: String::new() }
    }
}

impl vstd::std_specs::convert::FromSpecImpl<Person> for Person2 {
    open spec fn obeys_from_spec() -> bool {
        false
    }

    open spec fn from_spec(v: Person) -> Person2 {
        vstd::pervasive::arbitrary()
    }
}

impl Bytes for Person {
    /// The schema hash, then the name, then the age.
    open spec fn ser(v: PersonV) -> Seq<u8> {
        le_bytes(sig_hash(Self::spec_sig()) as int, 8) + <String as Bytes>::ser(v.name) + <u16 as Bytes>::ser(v.age)
    }

    open spec fn deser(b: Seq<u8>) -> Result<(PersonV, Seq<u8>), ErrorKind> {
        match <u64 as Bytes>::deser(b) {
            Err(k) => Err(k),
            Ok(h) => if h.0 == sig_hash(Self::spec_sig()) {
                match <String as Bytes>::deser(h.1) {
                    Err(k) => Err(k),
                    Ok(nm) => match <u16 as Bytes>::deser(nm.1) {
                        Err(k) => Err(k),
                        Ok(ag) => Ok((PersonV { name: nm.0, age: ag.0 }, ag.1)),
                    },
                }
            } else {
                match <Person2 as Bytes>::deser(b) {
                    Ok(p2) => Ok((person_from_v(p2.0), p2.1)),
                    Err(_) => Err(ErrorKind::SchemaMismatch),
                }
            },
        }
    }

    open spec fn codec_wf(v: PersonV) -> bool {
        nul_free(v.name)
    }

    open spec fn spec_sig() -> Seq<char> {
        "String"@ + "u16"@
    }

    proof fn lemma_round_trip(v: PersonV, rest: Seq<u8>) {
        let h = sig_hash(Self::spec_sig());
        let hs = le_bytes(h as int, 8);
        let ns = <String as Bytes>::ser(v.name);
        let ags = <u16 as Bytes>::ser(v.age);
        crate::bytes::lemma_reverse_concat(hs + ns, ags);
        crate::bytes::lemma_reverse_concat(hs, ns);
        let b = rest + Self::ser(v).reverse();
        assert(b =~= ((rest + ags.reverse()) + ns.reverse()) + hs.reverse());
        <u64 as Bytes>::lemma_round_trip(h, (rest + ags.reverse()) + ns.reverse());
        <String as Bytes>::lemma_round_trip(v.name, rest + ags.reverse());
        <u16 as Bytes>::lemma_round_trip(v.age, rest);
        assert(Self::deser(b) == Ok::<(PersonV, Seq<u8>), ErrorKind>(
            (PersonV { name: v.name, age: v.age }, rest),
        ));
        assert(v == PersonV { name: v.name, age: v.age });
    }

    fn serialize(&self) -> (r: Vec<u8>) {
        let h = Self::hash();
        let mut out = h.serialize();
        let mut nm = self.name.serialize();
        out.append(&mut nm);
        let mut ag = self.age.serialize();
        out.append(&mut ag);
        proof {
            assert(out@ =~= Self::ser(self.deep_view()));
        }
        out
    }

    fn deserialize(bytes: &mut Vec<u8>) -> (r: Result<Person, Error>) {
        let saved = copied(bytes);
        let h = match u64::deserialize(bytes) {
            Ok(h) => h,
            Err(e) => {
                return Err(e);
            },
        };
        if h == Self::hash() {
            let name = match String::deserialize(bytes) {
                Ok(nm) => nm,
                Err(e) => {
                    return Err(e);
                },
            };
            let age = match u16::deserialize(bytes) {
                Ok(ag) => ag,
                Err(e) => {
                    return Err(e);
                },
            };
            Ok(Person { name, age })
        } else {
            let mut attempt = saved;
            match Person2::deserialize(&mut attempt) {
                Ok(old2) => {
                    let upgraded = Person::from(old2);
                    *bytes = attempt;
                    Ok(upgraded)
                },
                Err(_) => Err(Error::with_kind(
                    ErrorKind::SchemaMismatch,
                    String::from_str(
                        "the stored schema hash matches neither this layout nor a predecessor",
                    ),
                )),
            }
        }
    }

    fn signature() -> (r: String) {
        let mut sig = String::signature();
        let tail = u16::signature();
        sig.append(tail.as_str());
        sig
    }

    fn hash() -> (r: u64) {
        let sig = Self::signature();
        hash_signature(sig.as_str())
    }
}

impl Bytes for Person2 {
    /// The schema hash, then the name, the age, and the extra text.
    open spec fn ser(v: Person2V) -> Seq<u8> {
        le_bytes(sig_hash(Self::spec_sig()) as int, 8) + <String as Bytes>::ser(v.name) + <u16 as Bytes>::ser(v.age) + <String as Bytes>::ser(v.text)
    }

    open spec fn deser(b: Seq<u8>) -> Result<(Person2V, Seq<u8>), ErrorKind> {
        match <u64 as Bytes>::deser(b) {
            Err(k) => Err(k),
            Ok(h) => if h.0 == sig_hash(Self::spec_sig()) {
                match <String as Bytes>::deser(h.1) {
                    Err(k) => Err(k),
                    Ok(nm) => match <u16 as Bytes>::deser(nm.1) {
                        Err(k) => Err(k),
                        Ok(ag) => match <String as Bytes>::deser(ag.1) {
                            Err(k) => Err(k),
                            Ok(tx) => Ok(
                                (Person2V { name: nm.0, age: ag.0, text: tx.0 }, tx.1),
                            ),
                        },
                    },
                }
            } else {
                Err(ErrorKind::SchemaMismatch)
            },
        }
    }

    open spec fn codec_wf(v: Person2V) -> bool {
        nul_free(v.name) && nul_free(v.text)
    }

    open spec fn spec_sig() -> Seq<char> {
        "String"@ + "u16"@ + "String"@
    }

    proof fn lemma_round_trip(v: Person2V, rest: Seq<u8>) {
        let h = sig_hash(Self::spec_sig());
        let hs = le_bytes(h as int, 8);
        let ns = <String as Bytes>::ser(v.name);
        let ags = <u16 as Bytes>::ser(v.age);
        let ts = <String as Bytes>::ser(v.text);
        crate::bytes::lemma_reverse_concat(hs + ns + ags, ts);
        crate::bytes::lemma_reverse_concat(hs + ns, ags);
        crate::bytes::lemma_reverse_concat(hs, ns);
        let b = rest + Self::ser(v).reverse();
        assert(b =~= (((rest + ts.reverse()) + ags.reverse()) + ns.reverse()) + hs.reverse());
        <u64 as Bytes>::lemma_round_trip(h, ((rest + ts.reverse()) + ags.reverse()) + ns.reverse());
        <String as Bytes>::lemma_round_trip(v.name, (rest + ts.reverse()) + ags.reverse());
        <u16 as Bytes>::lemma_round_trip(v.age, rest + ts.reverse());
        <String as Bytes>::lemma_round_trip(v.text, rest);
        assert(Self::deser(b) == Ok::<(Person2V, Seq<u8>), ErrorKind>(
            (Person2V { name: v.name, age: v.age, text: v.text }, rest),
        ));
        assert(v == Person2V { name: v.name, age: v.age, text: v.text });
    }

    fn serialize(&self) -> (r: Vec<u8>) {
        let h = Self::hash();
        let mut out = h.serialize();
        let mut nm = self.name.serialize();
        out.append(&mut nm);
        let mut ag = self.age.serialize();
        out.append(&mut ag);
        let mut tx = self.text.serialize();
        out.append(&mut tx);
        proof {
            assert(out@ =~= Self::ser(self.deep_view()));
        }
        out
    }

    fn deserialize(bytes: &mut Vec<u8>) -> (r: Result<Person2, Error>) {
        let h = match u64::deserialize(bytes) {
            Ok(h) => h,
            Err(e) => {
                return Err(e);
            },
        };
        if h == Self::hash() {
            let name = match String::deserialize(bytes) {
                Ok(nm) => nm,
                Err(e) => {
                    return Err(e);
                },
            };
            let age = match u16::deserialize(bytes) {
                Ok(ag) => ag,
                Err(e) => {
                    return Err(e);
                },
            };
            let text = match String::deserialize(bytes) {
                Ok(tx) => tx,
                Err(e) => {
                    return Err(e);
                },
            };
            Ok(Person2 { name, age, text })
        } else {
            Err(Error::with_kind(
                ErrorKind::SchemaMismatch,
                String::from_str(
                    "the stored schema hash matches neither this layout nor a predecessor",
                ),
            ))
        }
    }

    fn signature() -> (r: String) {
        let mut sig = String::signature();
        let mid = u16::signature();
        sig.append(mid.as_str());
        let tail = String::signature();
        sig.append(tail.as_str());
        sig
    }

    fn hash() -> (r: u64) {
        let sig = Self::signature();
        hash_signature(sig.as_str())
    }
}

impl Store for Person {
    type Id = String;

    open spec fn spec_name() -> Seq<char> {
        "persons"@
    }

    open spec fn id_v(v: PersonV) -> Seq<char> {
        v.name
    }

    open spec fn with_id_v(v: PersonV, id: Seq<char>) -> PersonV {
        PersonV { name: id, age: v.age }
    }

    proof fn lemma_name_valid() {
        reveal_strlit("persons");
        assert forall|i: int| 0 <= i < Self::spec_name().len() implies Self::spec_name()[i]
            != '/' by {
            assert(Self::spec_name().len() == 7);
        }
    }

    proof fn lemma_with_id(v: PersonV, id: Seq<char>) {
    }

    fn name() -> (r: String) {
        String::from_str("persons")
    }

    fn id(&self) -> (r: &String) {
        &self.name
    }

    fn with_id(&self, id: &String) -> (r: Person) {
        Person { name: id.clone(), age: self.age }
    }
}

impl Store for Person2 {
    type Id = String;

    /// The predecessor layout is stored under the same namespace as the
    /// current one, so current readers find and upgrade its entries.
    open spec fn spec_name() -> Seq<char> {
        "persons"@
    }

    open spec fn id_v(v: Person2V) -> Seq<char> {
        v.name
    }

    open spec fn with_id_v(v: Person2V, id: Seq<char>) -> Person2V {
        Person2V { name: id, age: v.age, text: v.text }
    }

    proof fn lemma_name_valid() {
        reveal_strlit("persons");
        assert forall|i: int| 0 <= i < Self::spec_name().len() implies Self::spec_name()[i]
            != '/' by {
            assert(Self::spec_name().len() == 7);
        }
    }

    proof fn lemma_with_id(v: Person2V, id: Seq<char>) {
    }

    fn name() -> (r: String) {
        String::from_str("persons")
    }

    fn id(&self) -> (r: &String) {
        &self.name
    }

    fn with_id(&self, id: &String) -> (r: Person2) {
        Person2 { name: id.clone(), age: self.age, text: self.text.clone() }
    }
}

/// A numeric record whose value is its own identifier.
#[derive(Debug, PartialEq, Eq, Structural, Clone, Copy)]
pub struct Number {
    pub id: u32,
}

impl Number {
    pub fn new(id: u32) -> (r: Number)
        ensures
            r == (Number { id }),
    {
        Number { id }
    }
}

/// A numeric record meant for auto-increment allocation: freshly made
/// values start at zero and the store substitutes the allocated
/// identifier.
#[derive(Debug, PartialEq, Eq, Structural, Clone, Copy)]
pub struct AutoNumber {
    pub id: u32,
}

impl AutoNumber {
    pub fn new() -> (r: AutoNumber)
        ensures
            r == (AutoNumber { id: 0 }),
    {
        AutoNumber { id: 0 }
    }
}

impl DeepView for Number {
    type V = Number;

    open spec fn deep_view(&self) -> Number {
        *self
    }
}

impl DeepView for AutoNumber {
    type V = AutoNumber;

    open spec fn deep_view(&self) -> AutoNumber {
        *self
    }
}

impl Bytes for Number {
    /// The schema hash, then the value.
    open spec fn ser(v: Number) -> Seq<u8> {
        le_bytes(sig_hash(Self::spec_sig()) as int, 8) + <u32 as Bytes>::ser(v.id)
    }

    open spec fn deser(b: Seq<u8>) -> Result<(Number, Seq<u8>), ErrorKind> {
        match <u64 as Bytes>::deser(b) {
            Err(k) => Err(k),
            Ok(h) => if h.0 == sig_hash(Self::spec_sig()) {
                match <u32 as Bytes>::deser(h.1) {
                    Err(k) => Err(k),
                    Ok(p) => Ok((Number { id: p.0 }, p.1)),
                }
            } else {
                Err(ErrorKind::SchemaMismatch)
            },
        }
    }

    open spec fn codec_wf(v: Number) -> bool {
        true
    }

    open spec fn spec_sig() -> Seq<char> {
        "u32"@
    }

    proof fn lemma_round_trip(v: Number, rest: Seq<u8>) {
        let h = sig_hash(Self::spec_sig());
        let hs = le_bytes(h as int, 8);
        let ids = <u32 as Bytes>::ser(v.id);
        crate::bytes::lemma_reverse_concat(hs, ids);
        let b = rest + Self::ser(v).reverse();
        assert(b =~= (rest + ids.reverse()) + hs.reverse());
        <u64 as Bytes>::lemma_round_trip(h, rest + ids.reverse());
        <u32 as Bytes>::lemma_round_trip(v.id, rest);
        assert(v == (Number { id: v.id }));
    }

    fn serialize(&self) -> (r: Vec<u8>) {
        let h = Self::hash();
        let mut out = h.serialize();
        let mut idb = self.id.serialize();
        out.append(&mut idb);
        proof {
            assert(out@ =~= Self::ser(self.deep_view()));
        }
        out
    }

    fn deserialize(bytes: &mut Vec<u8>) -> (r: Result<Number, Error>) {
        let h = match u64::deserialize(bytes) {
            Ok(h) => h,
            Err(e) => {
                return Err(e);
            },
        };
        if h == Self::hash() {
            match u32::deserialize(bytes) {
                Ok(id) => Ok(Number { id }),
                Err(e) => Err(e),
            }
        } else {
            Err(Error::with_kind(
                ErrorKind::SchemaMismatch,
                String::from_str(
                    "the stored schema hash matches neither this layout nor a predecessor",
                ),
            ))
        }
    }

    fn signature() -> (r: String) {
        u32::signature()
    }

    fn hash() -> (r: u64) {
        let sig = Self::signature();
        hash_signature(sig.as_str())
    }
}

impl Bytes for AutoNumber {
    /// The schema hash, then the value.
    open spec fn ser(v: AutoNumber) -> Seq<u8> {
        le_bytes(sig_hash(Self::spec_sig()) as int, 8) + <u32 as Bytes>::ser(v.id)
    }

    open spec fn deser(b: Seq<u8>) -> Result<(AutoNumber, Seq<u8>), ErrorKind> {
        match <u64 as Bytes>::deser(b) {
            Err(k) => Err(k),
            Ok(h) => if h.0 == sig_hash(Self::spec_sig()) {
                match <u32 as Bytes>::deser(h.1) {
                    Err(k) => Err(k),
                    Ok(p) => Ok((AutoNumber { id: p.0 }, p.1)),
                }
            } else {
                Err(ErrorKind::SchemaMismatch)
            },
        }
    }

    open spec fn codec_wf(v: AutoNumber) -> bool {
        true
    }

    open spec fn spec_sig() -> Seq<char> {
        "u32"@
    }

    proof fn lemma_round_trip(v: AutoNumber, rest: Seq<u8>) {
        let h = sig_hash(Self::spec_sig());
        let hs = le_bytes(h as int, 8);
        let ids = <u32 as Bytes>::ser(v.id);
        crate::bytes::lemma_reverse_concat(hs, ids);
        let b = rest + Self::ser(v).reverse();
        assert(b =~= (rest + ids.reverse()) + hs.reverse());
        <u64 as Bytes>::lemma_round_trip(h, rest + ids.reverse());
        <u32 as Bytes>::lemma_round_trip(v.id, rest);
        assert(v == (AutoNumber { id: v.id }));
    }

    fn serialize(&self) -> (r: Vec<u8>) {
        let h = Self::hash();
        let mut out = h.serialize();
        let mut idb = self.id.serialize();
        out.append(&mut idb);
        proof {
            assert(out@ =~= Self::ser(self.deep_view()));
        }
        out
    }

    fn deserialize(bytes: &mut Vec<u8>) -> (r: Result<AutoNumber, Error>) {
        let h = match u64::deserialize(bytes) {
            Ok(h) => h,
            Err(e) => {
                return Err(e);
            },
        };
        if h == Self::hash() {
            match u32::deserialize(bytes) {
                Ok(id) => Ok(AutoNumber { id }),
                Err(e) => Err(e),
            }
        } else {
            Err(Error::with_kind(
                ErrorKind::SchemaMismatch,
                String::from_str(
                    "the stored schema hash matches neither this layout nor a predecessor",
                ),
            ))
        }
    }

    fn signature() -> (r: String) {
        u32::signature()
    }

    fn hash() -> (r: u64) {
        let sig = Self::signature();
        hash_signature(sig.as_str())
    }
}

impl Store for Number {
    type Id = u32;

    open spec fn spec_name() -> Seq<char> {
        "numbers"@
    }

    open spec fn id_v(v: Number) -> u32 {
        v.id
    }

    open spec fn with_id_v(v: Number, id: u32) -> Number {
        Number { id }
    }

    proof fn lemma_name_valid() {
        reveal_strlit("numbers");
        assert forall|i: int| 0 <= i < Self::spec_name().len() implies Self::spec_name()[i]
            != '/' by {
            assert(Self::spec_name().len() == 7);
        }
    }

    proof fn lemma_with_id(v: Number, id: u32) {
    }

    fn name() -> (r: String) {
        String::from_str("numbers")
    }

    fn id(&self) -> (r: &u32) {
        &self.id
    }

    fn with_id(&self, id: &u32) -> (r: Number) {
        Number { id: *id }
    }
}

impl Store for AutoNumber {
    type Id = u32;

    open spec fn spec_name() -> Seq<char> {
        "auto-numbers"@
    }

    open spec fn id_v(v: AutoNumber) -> u32 {
        v.id
    }

    open spec fn with_id_v(v: AutoNumber, id: u32) -> AutoNumber {
        AutoNumber { id }
    }

    proof fn lemma_name_valid() {
        reveal_strlit("auto-numbers");
        assert forall|i: int| 0 <= i < Self::spec_name().len() implies Self::spec_name()[i]
            != '/' by {
            assert(Self::spec_name().len() == 12);
        }
    }

    proof fn lemma_with_id(v: AutoNumber, id: u32) {
    }

    fn name() -> (r: String) {
        String::from_str("auto-numbers")
    }

    fn id(&self) -> (r: &u32) {
        &self.id
    }

    fn with_id(&self, id: &u32) -> (r: AutoNumber) {
        AutoNumber { id: *id }
    }
}

/// Schema hash determinism, on display: two record layouts with the same
/// field signatures share their signature and so their schema hash.
pub proof fn lemma_same_layout_same_hash()
    ensures
        <Number as Bytes>::spec_sig() == <AutoNumber as Bytes>::spec_sig(),
        sig_hash(<Number as Bytes>::spec_sig()) == sig_hash(<AutoNumber as Bytes>::spec_sig()),
{
}

/// The concrete schema hash of the current person layout's signature,
/// witnessed one fold step at a time.
#[verifier::rlimit(100)]
proof fn lemma_hash_value_person()
    ensures
        sig_hash("String"@ + "u16"@) == 0x4db0788251e47fcu64,
{
    let mut acc = Seq::<char>::empty();
    assert(sig_hash(acc) == DIGEST_BASIS);
    assert((0xcbf29ce484222325 * 0x100000001b3) % 0x1_0000_0000_0000_0000 == 0xaf63bd4c8601b7dfint) by (nonlinear_arith);
    crate::hashing::lemma_sig_hash_snoc(acc, 'S');
    acc = acc.push('S');
    assert(sig_hash(acc) == 0xaf63bd4c8601b832u64);
    assert((0xaf63bd4c8601b832 * 0x100000001b3) % 0x1_0000_0000_0000_0000 == 0x832db07b4ebfcf6int) by (nonlinear_arith);
    crate::hashing::lemma_sig_hash_snoc(acc, 't');
    acc = acc.push('t');
    assert(sig_hash(acc) == 0x832db07b4ebfd6au64);
    assert((0x832db07b4ebfd6a * 0x100000001b3) % 0x1_0000_0000_0000_0000 == 0xda6798186cff9b1eint) by (nonlinear_arith);
    crate::hashing::lemma_sig_hash_snoc(acc, 'r');
    acc = acc.push('r');
    assert(sig_hash(acc) == 0xda6798186cff9b90u64);
    assert((0xda6798186cff9b90 * 0x100000001b3) % 0x1_0000_0000_0000_0000 == 0x1da30181365555b0int) by (nonlinear_arith);
    crate::hashing::lemma_sig_hash_snoc(acc, 'i');
    acc = acc.push('i');
    assert(sig_hash(acc) == 0x1da3018136555619u64);
    assert((0x1da3018136555619 * 0x100000001b3) % 0x1_0000_0000_0000_0000 == 0xb151a78f53014c7bint) by (nonlinear_arith);
    crate::hashing::lemma_sig_hash_snoc(acc, 'n');
    acc = acc.push('n');
    assert(sig_hash(acc) == 0xb151a78f53014ce9u64);
    assert((0xb151a78f53014ce9 * 0x100000001b3) % 0x1_0000_0000_0000_0000 == 0x4f0ca18a0b35afebint) by (nonlinear_arith);
    crate::hashing::lemma_sig_hash_snoc(acc, 'g');
    acc = acc.push('g');
    assert(sig_hash(acc) == 0x4f0ca18a0b35b052u64);
    assert((0x4f0ca18a0b35b052 * 0x100000001b3) % 0x1_0000_0000_0000_0000 == 0x8826cf910c3a9b56int) by (nonlinear_arith);
    crate::hashing::lemma_sig_hash_snoc(acc, 'u');
    acc = acc.push('u');
    assert(sig_hash(acc) == 0x8826cf910c3a9bcbu64);
    assert((0x8826cf910c3a9bcb * 0x100000001b3) % 0x1_0000_0000_0000_0000 == 0x948e7e77c796b9f1int) by (nonlinear_arith);
    crate::hashing::lemma_sig_hash_snoc(acc, '1');
    acc = acc.push('1');
    assert(sig_hash(acc) == 0x948e7e77c796ba22u64);
    assert((0x948e7e77c796ba22 * 0x100000001b3) % 0x1_0000_0000_0000_0000 == 0x4db0788251e47c6int) by (nonlinear_arith);
    crate::hashing::lemma_sig_hash_snoc(acc, '6');
    acc = acc.push('6');
    assert(sig_hash(acc) == 0x4db0788251e47fcu64);
    reveal_strlit("String");
    reveal_strlit("u16");
    assert(acc =~= "String"@ + "u16"@);
}

/// The concrete schema hash of the predecessor layout's signature,
/// witnessed one fold step at a time.
#[verifier::rlimit(100)]
proof fn lemma_hash_value_person2()
    ensures
        sig_hash("String"@ + "u16"@ + "String"@) == 0xe6f817f3a13f2e31u64,
{
    let mut acc = Seq::<char>::empty();
    assert(sig_hash(acc) == DIGEST_BASIS);
    assert((0xcbf29ce484222325 * 0x100000001b3) % 0x1_0000_0000_0000_0000 == 0xaf63bd4c8601b7dfint) by (nonlinear_arith);
    crate::hashing::lemma_sig_hash_snoc(acc, 'S');
    acc = acc.push('S');
    assert(sig_hash(acc) == 0xaf63bd4c8601b832u64);
    assert((0xaf63bd4c8601b832 * 0x100000001b3) % 0x1_0000_0000_0000_0000 == 0x832db07b4ebfcf6int) by (nonlinear_arith);
    crate::hashing::lemma_sig_hash_snoc(acc, 't');
    acc = acc.push('t');
    assert(sig_hash(acc) == 0x832db07b4ebfd6au64);
    assert((0x832db07b4ebfd6a * 0x100000001b3) % 0x1_0000_0000_0000_0000 == 0xda6798186cff9b1eint) by (nonlinear_arith);
    crate::hashing::lemma_sig_hash_snoc(acc, 'r');
    acc = acc.push('r');
    assert(sig_hash(acc) == 0xda6798186cff9b90u64);
    assert((0xda6798186cff9b90 * 0x100000001b3) % 0x1_0000_0000_0000_0000 == 0x1da30181365555b0int) by (nonlinear_arith);
    crate::hashing::lemma_sig_hash_snoc(acc, 'i');
    acc = acc.push('i');
    assert(sig_hash(acc) == 0x1da3018136555619u64);
    assert((0x1da3018136555619 * 0x100000001b3) % 0x1_0000_0000_0000_0000 == 0xb151a78f53014c7bint) by (nonlinear_arith);
    crate::hashing::lemma_sig_hash_snoc(acc, 'n');
    acc = acc.push('n');
    assert(sig_hash(acc) == 0xb151a78f53014ce9u64);
    assert((0xb151a78f53014ce9 * 0x100000001b3) % 0x1_0000_0000_0000_0000 == 0x4f0ca18a0b35afebint) by (nonlinear_arith);
    crate::hashing::lemma_sig_hash_snoc(acc, 'g');
    acc = acc.push('g');
    assert(sig_hash(acc) == 0x4f0ca18a0b35b052u64);
    assert((0x4f0ca18a0b35b052 * 0x100000001b3) % 0x1_0000_0000_0000_0000 == 0x8826cf910c3a9b56int) by (nonlinear_arith);
    crate::hashing::lemma_sig_hash_snoc(acc, 'u');
    acc = acc.push('u');
    assert(sig_hash(acc) == 0x8826cf910c3a9bcbu64);
    assert((0x8826cf910c3a9bcb * 0x100000001b3) % 0x1_0000_0000_0000_0000 == 0x948e7e77c796b9f1int) by (nonlinear_arith);
    crate::hashing::lemma_sig_hash_snoc(acc, '1');
    acc = acc.push('1');
    assert(sig_hash(acc) == 0x948e7e77c796ba22u64);
    assert((0x948e7e77c796ba22 * 0x100000001b3) % 0x1_0000_0000_0000_0000 == 0x4db0788251e47c6int) by (nonlinear_arith);
    crate::hashing::lemma_sig_hash_snoc(acc, '6');
    acc = acc.push('6');
    assert(sig_hash(acc) == 0x4db0788251e47fcu64);
    assert((0x4db0788251e47fc * 0x100000001b3) % 0x1_0000_0000_0000_0000 == 0x5e75c85712745134int) by (nonlinear_arith);
    crate::hashing::lemma_sig_hash_snoc(acc, 'S');
    acc = acc.push('S');
    assert(sig_hash(acc) == 0x5e75c85712745187u64);
    assert((0x5e75c85712745187 * 0x100000001b3) % 0x1_0000_0000_0000_0000 == 0xf674f2f45ba68865int) by (nonlinear_arith);
    crate::hashing::lemma_sig_hash_snoc(acc, 't');
    acc = acc.push('t');
    assert(sig_hash(acc) == 0xf674f2f45ba688d9u64);
    assert((0xf674f2f45ba688d9 * 0x100000001b3) % 0x1_0000_0000_0000_0000 == 0x6f41ae37bbfa88bbint) by (nonlinear_arith);
    crate::hashing::lemma_sig_hash_snoc(acc, 'r');
    acc = acc.push('r');
    assert(sig_hash(acc) == 0x6f41ae37bbfa892du64);
    assert((0x6f41ae37bbfa892d * 0x100000001b3) % 0x1_0000_0000_0000_0000 == 0x72435b46ab71777int) by (nonlinear_arith);
    crate::hashing::lemma_sig_hash_snoc(acc, 'i');
    acc = acc.push('i');
    assert(sig_hash(acc) == 0x72435b46ab717e0u64);
    assert((0x72435b46ab717e0 * 0x100000001b3) % 0x1_0000_0000_0000_0000 == 0xd99f2191551d91a0int) by (nonlinear_arith);
    crate::hashing::lemma_sig_hash_snoc(acc, 'n');
    acc = acc.push('n');
    assert(sig_hash(acc) == 0xd99f2191551d920eu64);
    assert((0xd99f2191551d920e * 0x100000001b3) % 0x1_0000_0000_0000_0000 == 0xe6f817f3a13f2dcaint) by (nonlinear_arith);
    crate::hashing::lemma_sig_hash_snoc(acc, 'g');
    acc = acc.push('g');
    assert(sig_hash(acc) == 0xe6f817f3a13f2e31u64);
    reveal_strlit("String");
    reveal_strlit("u16");
    assert(acc =~= "String"@ + "u16"@ + "String"@);
}

/// Schema drift, on display: adding a field to the person layout changes
/// its signature and its schema hash, which is what lets a reader tell
/// the two layouts apart.
pub proof fn lemma_changed_layout_changes_hash()
    ensures
        <Person as Bytes>::spec_sig() != <Person2 as Bytes>::spec_sig(),
        sig_hash(<Person as Bytes>::spec_sig()) != sig_hash(<Person2 as Bytes>::spec_sig()),
{
    reveal_strlit("String");
    reveal_strlit("u16");
    lemma_hash_value_person();
    lemma_hash_value_person2();
}

/// Migration, on display: a record serialized under the predecessor
/// layout, read as the current layout, succeeds and yields the upgraded
/// value, consuming the stream exactly as the predecessor would.
pub proof fn lemma_migration(v2: Person2V, rest: Seq<u8>)
    requires
        <Person2 as Bytes>::codec_wf(v2),
    ensures
        <Person as Bytes>::deser(rest + <Person2 as Bytes>::ser(v2).reverse()) == Ok::<
            (PersonV, Seq<u8>),
            ErrorKind,
        >((person_from_v(v2), rest)),
{
    let h2 = sig_hash(<Person2 as Bytes>::spec_sig());
    let hs = le_bytes(h2 as int, 8);
    let ns = <String as Bytes>::ser(v2.name);
    let ags = <u16 as Bytes>::ser(v2.age);
    let ts = <String as Bytes>::ser(v2.text);
    crate::bytes::lemma_reverse_concat(hs + ns + ags, ts);
    crate::bytes::lemma_reverse_concat(hs + ns, ags);
    crate::bytes::lemma_reverse_concat(hs, ns);
    let b = rest + <Person2 as Bytes>::ser(v2).reverse();
    assert(b =~= (((rest + ts.reverse()) + ags.reverse()) + ns.reverse()) + hs.reverse());
    <u64 as Bytes>::lemma_round_trip(h2, ((rest + ts.reverse()) + ags.reverse()) + ns.reverse());
    lemma_changed_layout_changes_hash();
    <Person2 as Bytes>::lemma_round_trip(v2, rest);
}

/// Schema mismatch, on display: a stream whose stored hash matches
/// neither the current person layout nor its predecessor fails with a
/// schema mismatch.
pub proof fn lemma_unknown_hash_rejected(b: Seq<u8>)
    requires
        <u64 as Bytes>::deser(b) matches Ok(h) && h.0 != sig_hash(<Person as Bytes>::spec_sig())
            && h.0 != sig_hash(<Person2 as Bytes>::spec_sig()),
    ensures
        <Person as Bytes>::deser(b) == Err::<(PersonV, Seq<u8>), ErrorKind>(
            ErrorKind::SchemaMismatch,
        ),
{
}

} // verus!
