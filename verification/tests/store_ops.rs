use filestore::database::Database;
use filestore::error::ErrorKind;
use filestore::records::AutoNumber;
use filestore::records::Number;
use filestore::records::Person;
use filestore::records::Person2;

#[test]
fn basics() {
    let mut database = Database::new("data/basics");
    let mut peter_original = Person::new("Peter", 25);
    database.create(&peter_original).expect("Database create failed");
    let peter_read: Person = database.read(&String::from("Peter")).expect("Database read failed");
    assert_eq!(peter_read, peter_original);
    peter_original.age = 45;
    database.update(&peter_original).expect("Database update failed");
    let peter_read: Person = database.read(&String::from("Peter")).expect("Database read failed");
    assert_eq!(peter_read, peter_original);
    database.delete::<Person>(&peter_original.name).expect("Database delete failed");
}

#[test]
fn from_old() {
    let mut database = Database::new("data/from-old");
    let peter: Person = Person::new("Peter", 25);
    let peter2: Person2 = peter.clone().into();
    database.create(&peter2).expect("Database create failed");
    let peter_read: Person = database.read(&String::from("Peter")).expect("Database read failed");
    assert_eq!(peter_read, peter);
    database.delete::<Person>(&String::from("Peter")).expect("Database delete failed");
}

#[test]
fn read_all() {
    let mut database = Database::new("data/read-all");
    database.create(&Person::new("Jakob", 56)).unwrap();
    database.create(&Person::new("Maria", 54)).unwrap();
    database.create(&Person::new("Josef", 51)).unwrap();
    assert_eq!(database.read_all::<Person>().unwrap().len(), 3);
    database.delete_all::<Person>().unwrap();
}

#[test]
fn auto_count() {
    let mut database = Database::new("data/auto-count");
    database.create_auto(&AutoNumber::new()).unwrap();
    database.create_auto(&AutoNumber::new()).unwrap();
    database.create_auto(&AutoNumber::new()).unwrap();
}

#[test]
fn auto_count_allocates_in_order() {
    let mut database = Database::new("data/auto-order");
    database.create_auto(&AutoNumber::new()).unwrap();
    database.create_auto(&AutoNumber::new()).unwrap();
    database.create_auto(&AutoNumber::new()).unwrap();
    // the three allocations yield 0, 1 and 2, each retrievable by read
    for id in 0u32..3u32 {
        let n: AutoNumber = database.read(&id).expect("Database read failed");
        assert_eq!(n.id, id);
    }
    assert_eq!(database.read_all::<AutoNumber>().unwrap().len(), 3);
}

#[test]
fn read_after_delete_is_not_found() {
    let mut database = Database::new("data/not-found");
    let peter = Person::new("Peter", 25);
    database.create(&peter).unwrap();
    database.delete::<Person>(&peter.name).unwrap();
    let r: Result<Person, _> = database.read(&String::from("Peter"));
    assert_eq!(r.unwrap_err().kind(), ErrorKind::NotFound);
}

#[test]
fn create_twice_already_exists() {
    let mut database = Database::new("data/duplicate");
    let n = Number::new(7);
    database.create(&n).unwrap();
    let r = database.create(&n);
    assert_eq!(r.unwrap_err().kind(), ErrorKind::AlreadyExists);
}

#[test]
fn update_absent_is_not_found() {
    let mut database = Database::new("data/update-absent");
    let r = database.update(&Number::new(7));
    assert_eq!(r.unwrap_err().kind(), ErrorKind::NotFound);
}

#[test]
fn delete_absent_is_not_found() {
    let mut database = Database::new("data/delete-absent");
    let r = database.delete::<Number>(&7u32);
    assert_eq!(r.unwrap_err().kind(), ErrorKind::NotFound);
}

#[test]
fn create_or_update_takes_both_paths() {
    let mut database = Database::new("data/upsert");
    let mut peter = Person::new("Peter", 25);
    database.create_or_update(&peter).unwrap();
    let read: Person = database.read(&String::from("Peter")).unwrap();
    assert_eq!(read.age, 25);
    peter.age = 45;
    database.create_or_update(&peter).unwrap();
    let read: Person = database.read(&String::from("Peter")).unwrap();
    assert_eq!(read.age, 45);
}

#[test]
fn contains_tracks_entries() {
    let mut database = Database::new("data/contains");
    let n = Number::new(3);
    assert_eq!(database.contains(&n).unwrap(), false);
    database.create(&n).unwrap();
    assert_eq!(database.contains(&n).unwrap(), true);
    database.delete::<Number>(&3u32).unwrap();
    assert_eq!(database.contains(&n).unwrap(), false);
}

#[test]
fn namespaces_are_separate() {
    let mut database = Database::new("data/namespaces");
    database.create(&Number::new(0)).unwrap();
    database.create_auto(&AutoNumber::new()).unwrap();
    assert_eq!(database.read_all::<Number>().unwrap().len(), 1);
    assert_eq!(database.read_all::<AutoNumber>().unwrap().len(), 1);
    database.delete_all::<Number>().unwrap();
    assert_eq!(database.read_all::<Number>().unwrap().len(), 0);
    assert_eq!(database.read_all::<AutoNumber>().unwrap().len(), 1);
}
