use filestore::bytes::Bytes;
use filestore::database::Database;
use filestore::error::ErrorKind;
use filestore::records::AutoNumber;
use filestore::records::Number;
use filestore::records::Person;
use filestore::records::Person2;

#[test]
fn serialize_deserialize() {
    let number: u32 = 1234;
    let serialized = number.serialize();
    let mut reversed = serialized.clone();
    reversed.reverse();
    let deserialized: u32 = Bytes::deserialize(&mut reversed).unwrap();
    println!("{} -> {:?} -> {}", number, serialized, deserialized);
}

#[test]
fn integer_round_trips() {
    let a: u8 = 209;
    let mut buf = a.serialize();
    buf.reverse();
    assert_eq!(u8::deserialize(&mut buf).unwrap(), a);

    let b: u16 = 54321;
    let mut buf = b.serialize();
    buf.reverse();
    assert_eq!(u16::deserialize(&mut buf).unwrap(), b);

    let c: u32 = 3_000_000_001;
    let mut buf = c.serialize();
    buf.reverse();
    assert_eq!(u32::deserialize(&mut buf).unwrap(), c);

    let d: u64 = 18_000_000_000_000_000_001;
    let mut buf = d.serialize();
    buf.reverse();
    assert_eq!(u64::deserialize(&mut buf).unwrap(), d);
}

#[test]
fn signed_integer_round_trips() {
    let a: i8 = -5;
    let mut buf = a.serialize();
    buf.reverse();
    assert_eq!(i8::deserialize(&mut buf).unwrap(), a);

    let b: i16 = -32768;
    let mut buf = b.serialize();
    buf.reverse();
    assert_eq!(i16::deserialize(&mut buf).unwrap(), b);

    let c: i32 = -2_000_000_000;
    let mut buf = c.serialize();
    buf.reverse();
    assert_eq!(i32::deserialize(&mut buf).unwrap(), c);

    let d: i64 = -9_000_000_000_000_000_000;
    let mut buf = d.serialize();
    buf.reverse();
    assert_eq!(i64::deserialize(&mut buf).unwrap(), d);
}

#[test]
fn little_endian_layout() {
    assert_eq!(1234u32.serialize(), vec![0xd2, 0x04, 0x00, 0x00]);
    assert_eq!(1u16.serialize(), vec![1, 0]);
    assert_eq!((-1i16).serialize(), vec![0xff, 0xff]);
    assert_eq!(true.serialize(), vec![1]);
    assert_eq!(false.serialize(), vec![0]);
}

#[test]
fn bool_reads_only_one_as_true() {
    let mut buf = vec![1u8];
    assert_eq!(bool::deserialize(&mut buf).unwrap(), true);
    let mut buf = vec![0u8];
    assert_eq!(bool::deserialize(&mut buf).unwrap(), false);
    // any byte other than 1 reads as false rather than failing
    let mut buf = vec![2u8];
    assert_eq!(bool::deserialize(&mut buf).unwrap(), false);
}

#[test]
fn string_round_trip() {
    let s = String::from("Grüß dich");
    let bytes = s.serialize();
    assert_eq!(*bytes.last().unwrap(), 0);
    let mut buf = bytes.clone();
    buf.reverse();
    assert_eq!(String::deserialize(&mut buf).unwrap(), s);
}

#[test]
fn string_layout_is_nul_terminated() {
    let s = String::from("ab");
    assert_eq!(s.serialize(), vec![97, 98, 0]);
}

#[test]
fn vec_round_trip() {
    let v: Vec<u16> = vec![1, 2, 515];
    let bytes = v.serialize();
    assert_eq!(
        bytes,
        vec![3, 0, 0, 0, 0, 0, 0, 0, 1, 0, 2, 0, 3, 2]
    );
    let mut buf = bytes;
    buf.reverse();
    assert_eq!(Vec::<u16>::deserialize(&mut buf).unwrap(), v);
}

#[test]
fn truncated_data_fails() {
    let mut buf = vec![0xd2u8, 0x04];
    let r: Result<u32, _> = u32::deserialize(&mut buf);
    assert_eq!(r.unwrap_err().kind(), ErrorKind::Encoding);
}

#[test]
fn signatures_mirror_field_order() {
    assert_eq!(Person::signature(), "Stringu16");
    assert_eq!(Person2::signature(), "Stringu16String");
    assert_eq!(Number::signature(), "u32");
    assert_eq!(Vec::<u32>::signature(), "Vec<u32>");
}

#[test]
fn schema_hash_depends_on_signature_alone() {
    // identical layouts share the hash
    assert_eq!(Number::hash(), AutoNumber::hash());
    assert_eq!(Person::hash(), Person::hash());
    // a layout change (an added field) changes the hash
    assert_ne!(Person::hash(), Person2::hash());
}

#[test]
fn record_round_trip() {
    let p = Person::new("Peter", 25);
    let mut buf = p.serialize();
    buf.reverse();
    let back = Person::deserialize(&mut buf).unwrap();
    assert_eq!(back, p);
    assert!(buf.is_empty());
}

#[test]
fn migration_upgrades_predecessor() {
    let old = Person2 {
        name: String::from("Peter"),
        age: 25,
        text: String::from("left over"),
    };
    let mut buf = old.serialize();
    buf.reverse();
    let upgraded = Person::deserialize(&mut buf).unwrap();
    assert_eq!(upgraded, Person::new("Peter", 25));
}

#[test]
fn unknown_hash_is_a_schema_mismatch() {
    // a Number's hash matches neither Person nor its predecessor
    let n = Number::new(7);
    let mut buf = n.serialize();
    buf.reverse();
    let r = Person::deserialize(&mut buf);
    assert_eq!(r.unwrap_err().kind(), ErrorKind::SchemaMismatch);
}

#[test]
fn encode_decode_identifier() {
    let id: u32 = 1234;
    let encoded = Database::encode(&id).unwrap();
    assert_eq!(encoded, "d2040000");
    let decoded: u32 = Database::decode(&encoded).unwrap();
    assert_eq!(decoded, 1234);

    let name = String::from("Peter");
    let encoded = Database::encode(&name).unwrap();
    assert_eq!(encoded, "506574657200");
    let decoded: String = Database::decode(&encoded).unwrap();
    assert_eq!(decoded, name);
}

#[test]
fn encode_rejects_overlong_identifier() {
    // 64 one-byte characters plus the terminator exceed the 64-byte cap
    let long = "x".repeat(64);
    let r = Database::encode(&long);
    assert_eq!(r.unwrap_err().kind(), ErrorKind::Encoding);
    // one character shorter fits: 64 bytes encode to 128 characters
    let fits = "x".repeat(63);
    let encoded = Database::encode(&fits).unwrap();
    assert_eq!(encoded.len(), 128);
    let decoded: String = Database::decode(&encoded).unwrap();
    assert_eq!(decoded, fits);
}

#[test]
fn decode_rejects_bad_entry_names() {
    let odd = String::from("d20");
    let r: Result<u32, _> = Database::decode(&odd);
    assert_eq!(r.unwrap_err().kind(), ErrorKind::Encoding);
    let outside = String::from("zz");
    let r: Result<u32, _> = Database::decode(&outside);
    assert_eq!(r.unwrap_err().kind(), ErrorKind::Encoding);
}
