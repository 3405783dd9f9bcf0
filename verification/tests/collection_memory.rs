use colette::backend::memory::InMemoryMultiStore;
use colette::bounds::Bound;
use colette::collection::{collection, Collection};
use colette::entity::Entity;
use colette::error::{CodecError, Error};
use colette::index::{Index, Multi, Unique};
use colette::index_registry::{Cons, Nil};
use colette::key::Key;
use colette::scan::{Direction, PrefixOrKey, PrefixScan};
use colette::store::{MultiStore, WriteKVStore};

#[derive(Clone, Debug, PartialEq, Eq)]
struct User {
    id: u64,
    email: String,
    team: String,
    seat: u16,
}

fn user(id: u64, email: &str, team: &str, seat: u16) -> User {
    User { id, email: email.to_string(), team: team.to_string(), seat }
}

impl Entity for User {
    type Key = u64;

    fn key(&self) -> u64 {
        self.id
    }

    fn to_bytes(&self) -> Result<Vec<u8>, CodecError> {
        Ok(format!("{}|{}|{}|{}", self.id, self.email, self.team, self.seat).into_bytes())
    }

    fn from_bytes(bytes: &[u8]) -> Result<Self, CodecError> {
        let text = std::str::from_utf8(bytes).map_err(|e| CodecError::new(e.to_string()))?;
        let fields: Vec<&str> = text.split('|').collect();
        if fields.len() != 4 {
            return Err(CodecError::new(format!("malformed user: {text}")));
        }
        let id = fields[0].parse().map_err(|_| CodecError::new("bad id".to_string()))?;
        let seat = fields[3].parse().map_err(|_| CodecError::new("bad seat".to_string()))?;
        Ok(User { id, email: fields[1].to_string(), team: fields[2].to_string(), seat })
    }
}

struct UniqueEmail;
struct ByTeamSeat;

impl Index<User> for UniqueEmail {
    type Key = String;
    type Kind = Unique;

    fn name() -> &'static str {
        "unique_email"
    }

    fn key(entity: &User) -> String {
        entity.email.clone()
    }
}

impl Index<User> for ByTeamSeat {
    type Key = (String, u16);
    type Kind = Multi;

    fn name() -> &'static str {
        "by_team_seat"
    }

    fn key(entity: &User) -> (String, u16) {
        (entity.team.clone(), entity.seat)
    }
}

type Users = Collection<InMemoryMultiStore, User, Cons<ByTeamSeat, Cons<UniqueEmail, Nil>>>;

fn prepared_db(name: &'static str) -> InMemoryMultiStore {
    let mut db = InMemoryMultiStore::new();
    db.prepare(name, &["__main", "unique_email", "by_team_seat"]).unwrap();
    db
}

fn users_in(name: &'static str, db: InMemoryMultiStore) -> Users {
    collection::<User, _>(name, db)
        .with_index::<UniqueEmail>()
        .with_index::<ByTeamSeat>()
        .build()
}

fn scanned(users: &Users, direction: Direction, team: Option<&str>) -> Vec<u64> {
    let mut scan = users.scan(ByTeamSeat).unwrap().direction(direction);
    if let Some(team) = team {
        scan = PrefixScan::<(String, u16), String>::prefix(scan, team.to_string());
    }
    let mut it = scan.iter().unwrap();
    let mut ids = Vec::new();
    while let Some(entry) = it.next() {
        ids.push(entry.unwrap().record.id);
    }
    ids
}

#[test]
fn insert_then_get_reads_the_record_back() {
    let mut users = users_in("users", prepared_db("users"));
    let ada = user(100, "ada@example.test", "core", 1);
    users.insert(&ada).unwrap();
    assert_eq!(users.get(&100).unwrap(), Some(ada));
    assert_eq!(users.get(&404).unwrap(), None);
}

#[test]
fn insert_refuses_an_existing_primary_key() {
    let mut users = users_in("users", prepared_db("users"));
    users.insert(&user(1, "a@x", "core", 1)).unwrap();
    match users.insert(&user(1, "b@x", "core", 2)) {
        Err(Error::AlreadyExists(k)) => assert_eq!(k, 1u64.encode()),
        other => panic!("unexpected {other:?}"),
    }
    assert_eq!(users.get(&1).unwrap(), Some(user(1, "a@x", "core", 1)));
}

#[test]
fn unique_index_refusal_leaves_nothing_written() {
    let mut users = users_in("users", prepared_db("users"));
    users.insert(&user(1, "same@x", "core", 1)).unwrap();
    match users.insert(&user(2, "same@x", "ops", 1)) {
        Err(Error::AlreadyExists(k)) => assert_eq!(k, "same@x".to_string().encode()),
        other => panic!("unexpected {other:?}"),
    }
    assert_eq!(users.get(&2).unwrap(), None);
    assert_eq!(scanned(&users, Direction::LeftToRight, None), vec![1]);
}

#[test]
fn update_requires_an_existing_record_and_moves_index_entries() {
    let mut users = users_in("users", prepared_db("users"));
    match users.update(&user(7, "g@x", "core", 1)) {
        Err(Error::NotFound(k)) => assert_eq!(k, 7u64.encode()),
        other => panic!("unexpected {other:?}"),
    }
    users.insert(&user(7, "old@x", "core", 1)).unwrap();
    users.update(&user(7, "new@x", "ops", 3)).unwrap();
    assert_eq!(users.get(&7).unwrap(), Some(user(7, "new@x", "ops", 3)));
    // the old email is free again
    users.insert(&user(8, "old@x", "core", 2)).unwrap();
    assert_eq!(scanned(&users, Direction::LeftToRight, Some("ops")), vec![7]);
    assert_eq!(scanned(&users, Direction::LeftToRight, Some("core")), vec![8]);
}

#[test]
fn save_inserts_or_updates() {
    let mut users = users_in("users", prepared_db("users"));
    users.save(&user(3, "c@x", "core", 1)).unwrap();
    assert_eq!(users.get(&3).unwrap(), Some(user(3, "c@x", "core", 1)));
    users.save(&user(3, "c@x", "core", 9)).unwrap();
    assert_eq!(users.get(&3).unwrap(), Some(user(3, "c@x", "core", 9)));
    assert_eq!(scanned(&users, Direction::LeftToRight, None), vec![3]);
}

#[test]
fn remove_deletes_the_record_and_its_index_entries() {
    let mut users = users_in("users", prepared_db("users"));
    users.insert(&user(4, "d@x", "core", 1)).unwrap();
    users.remove(&4).unwrap();
    assert_eq!(users.get(&4).unwrap(), None);
    assert_eq!(scanned(&users, Direction::LeftToRight, None), Vec::<u64>::new());
    // removing a missing record succeeds
    users.remove(&4).unwrap();
    // the email can be used again
    users.insert(&user(5, "d@x", "core", 1)).unwrap();
}

#[test]
fn scans_follow_index_order_and_direction() {
    let mut users = users_in("users", prepared_db("users"));
    users.insert(&user(10, "a@x", "core", 2)).unwrap();
    users.insert(&user(11, "b@x", "core", 1)).unwrap();
    users.insert(&user(12, "c@x", "ops", 1)).unwrap();
    users.insert(&user(13, "d@x", "core", 2)).unwrap();
    assert_eq!(scanned(&users, Direction::LeftToRight, None), vec![11, 10, 13, 12]);
    assert_eq!(scanned(&users, Direction::RightToLeft, None), vec![12, 13, 10, 11]);
    assert_eq!(scanned(&users, Direction::LeftToRight, Some("core")), vec![11, 10, 13]);
    assert_eq!(scanned(&users, Direction::RightToLeft, Some("core")), vec![13, 10, 11]);

    let scan = users.scan(ByTeamSeat).unwrap();
    let scan = PrefixScan::<(String, u16), String>::range(
        scan,
        Bound::Included(PrefixOrKey::Key(("core".to_string(), 2)))
            ..Bound::Excluded(PrefixOrKey::Prefix("ops".to_string())),
    );
    let mut it = scan.iter().unwrap();
    let mut ids = Vec::new();
    while let Some(entry) = it.next() {
        ids.push(entry.unwrap().record.id);
    }
    assert_eq!(ids, vec![10, 13]);

    let scan = users.scan(ByTeamSeat).unwrap().range(Bound::Unbounded..Bound::Excluded(("core".to_string(), 2u16)));
    let mut it = scan.iter().unwrap();
    let mut ids = Vec::new();
    while let Some(entry) = it.next() {
        ids.push(entry.unwrap().record.id);
    }
    assert_eq!(ids, vec![11]);
}

#[test]
fn dangling_index_entry_is_unexpected() {
    let mut db = prepared_db("users");
    let mut tx = db.write("users").unwrap();
    let mut skey = ("core".to_string(), 1u16).encode();
    skey.extend_from_slice(&99u64.encode());
    tx.set("by_team_seat", &skey, &99u64.encode()).unwrap();
    db.commit(tx).unwrap();
    let users = users_in("users", db);
    let mut it = users.scan(ByTeamSeat).unwrap().iter().unwrap();
    assert!(matches!(it.next(), Some(Err(Error::Unexpected(_)))));
    assert!(it.next().is_none());
}

#[test]
fn undecodable_record_is_a_codec_error() {
    let mut db = prepared_db("users");
    let mut tx = db.write("users").unwrap();
    tx.set("__main", &9u64.encode(), b"garbage").unwrap();
    db.commit(tx).unwrap();
    let mut users = users_in("users", db);
    assert!(matches!(users.get(&9), Err(Error::Codec(_))));
    assert!(matches!(users.update(&user(9, "e@x", "core", 1)), Err(Error::Codec(_))));
}

fn scanned_by_email(users: &Users) -> Vec<User> {
    let mut it = users.scan(UniqueEmail).unwrap().iter().unwrap();
    let mut found = Vec::new();
    while let Some(entry) = it.next() {
        found.push(entry.unwrap().record);
    }
    found
}

#[test]
fn indexes_hold_exactly_the_records_after_mixed_writes() {
    let mut users = users_in("users", prepared_db("users"));
    users.insert(&user(1, "b@x", "core", 2)).unwrap();
    users.insert(&user(2, "a@x", "ops", 1)).unwrap();
    users.insert(&user(3, "c@x", "core", 1)).unwrap();
    users.update(&user(1, "d@x", "ops", 5)).unwrap();
    users.save(&user(4, "e@x", "core", 3)).unwrap();
    users.save(&user(3, "a0@x", "core", 1)).unwrap();
    users.remove(&2).unwrap();
    assert!(users.insert(&user(5, "e@x", "ops", 9)).is_err());

    let present = vec![
        user(3, "a0@x", "core", 1),
        user(1, "d@x", "ops", 5),
        user(4, "e@x", "core", 3),
    ];
    // the unique index lists every record once, in email order
    assert_eq!(scanned_by_email(&users), present);
    // the multi index lists every record once, in (team, seat) order
    assert_eq!(scanned(&users, Direction::LeftToRight, None), vec![3, 4, 1]);
    for u in &present {
        assert_eq!(users.get(&u.id).unwrap().as_ref(), Some(u));
    }
    assert_eq!(users.get(&2).unwrap(), None);
    assert_eq!(users.get(&5).unwrap(), None);
}

fn scanned_after(users: &Users, direction: Direction, cursor: (String, u16, u64)) -> Vec<u64> {
    let scan = users.scan(ByTeamSeat).unwrap().direction(direction).after(cursor);
    let mut it = scan.iter().unwrap();
    let mut ids = Vec::new();
    while let Some(entry) = it.next() {
        ids.push(entry.unwrap().record.id);
    }
    ids
}

#[test]
fn scans_resume_after_a_cursor() {
    let mut users = users_in("users", prepared_db("users"));
    users.insert(&user(10, "a@x", "core", 2)).unwrap();
    users.insert(&user(11, "b@x", "core", 1)).unwrap();
    users.insert(&user(12, "c@x", "ops", 1)).unwrap();
    users.insert(&user(13, "d@x", "core", 2)).unwrap();
    // a multi index entry's key is the index key followed by the primary key
    assert_eq!(
        scanned_after(&users, Direction::LeftToRight, ("core".to_string(), 2, 10)),
        vec![13, 12]
    );
    assert_eq!(
        scanned_after(&users, Direction::RightToLeft, ("core".to_string(), 2, 13)),
        vec![10, 11]
    );
    // the cursor need not be an entry's key
    assert_eq!(
        scanned_after(&users, Direction::LeftToRight, ("core".to_string(), 1, 99)),
        vec![10, 13, 12]
    );
    assert_eq!(
        scanned_after(&users, Direction::LeftToRight, ("ops".to_string(), 1, 12)),
        Vec::<u64>::new()
    );
}

#[test]
fn insert_then_remove_leaves_every_store_as_it_was() {
    let mut users = users_in("users", prepared_db("users"));
    users.insert(&user(1, "a@x", "core", 1)).unwrap();
    let before_email = scanned_by_email(&users);
    let before_team = scanned(&users, Direction::LeftToRight, None);
    users.insert(&user(2, "b@x", "core", 2)).unwrap();
    users.remove(&2).unwrap();
    assert_eq!(scanned_by_email(&users), before_email);
    assert_eq!(scanned(&users, Direction::LeftToRight, None), before_team);
    assert_eq!(users.get(&2).unwrap(), None);
    assert_eq!(users.get(&1).unwrap(), Some(user(1, "a@x", "core", 1)));
}

#[test]
fn scan_is_lazy_and_always_succeeds() {
    let users = users_in("users", prepared_db("users"));
    let scan = users.scan(UniqueEmail);
    assert!(scan.is_ok());
}
