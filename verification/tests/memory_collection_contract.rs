use colette::backend::memory::InMemoryMultiStore;
use colette::collection::{collection, Collection};
use colette::entity::Entity;
use colette::error::CodecError;
use colette::index::{Index, Multi, Unique};
use colette::index_registry::{Cons, Nil};
use colette::store::MultiStore;

#[test]
fn memory_collection_contract() {
    run_collection_contract_tests(InMemoryMultiStore::new);
}

fn run_collection_contract_tests<DB: MultiStore>(make_db: impl Fn() -> DB) {
    single_value_primary_key_behaviour(&make_db);
    tuple_primary_key_behaviour(&make_db);
}

fn single_value_primary_key_behaviour<DB: MultiStore>(make_db: &impl Fn() -> DB) {
    let mut users = user_collection("single_value_primary_key_behaviour", make_db());
    let ada = user(
        100,
        "ada",
        "ada@example.test",
        Region::Europe,
        AccountStatus::Active,
        Plan::Team,
        "core",
        1,
    );

    users.insert(&ada).unwrap();

    assert_eq!(users.get(&100).unwrap(), Some(ada));
    assert_eq!(users.get(&404).unwrap(), None);
}

fn tuple_primary_key_behaviour<DB: MultiStore>(make_db: &impl Fn() -> DB) {
    let mut memberships = membership_collection("tuple_primary_key_behaviour", make_db());
    let core_ada = membership("core", 100, Role::Owner, "founder");

    memberships.insert(&core_ada).unwrap();

    assert_eq!(
        memberships.get(&("core".to_string(), 100)).unwrap(),
        Some(core_ada)
    );
    assert_eq!(memberships.get(&("core".to_string(), 404)).unwrap(), None);
}

type UserCollection<DB> = Collection<
    DB,
    User,
    Cons<
        ByTeamStatusSeat,
        Cons<
            ByRegionStatus,
            Cons<
                ByStatus,
                Cons<UniqueRegionPlanHandle, Cons<UniqueRegionHandle, Cons<UniqueEmail, Nil>>>,
            >,
        >,
    >,
>;

type MembershipCollection<DB> = Collection<DB, Membership, Nil>;

// Enumerations are indexed by their one-byte codes, which is how an
// enumeration key is encoded.

#[derive(Clone, Copy, Debug, PartialEq, Eq)]
enum Region {
    Americas,
    Europe,
    Pacific,
}

#[derive(Clone, Copy, Debug, PartialEq, Eq)]
enum AccountStatus {
    Invited,
    Active,
    Suspended,
}

#[derive(Clone, Copy, Debug, PartialEq, Eq)]
enum Plan {
    Free,
    Team,
    Enterprise,
}

#[derive(Clone, Copy, Debug, PartialEq, Eq)]
enum Role {
    Owner,
    Maintainer,
    Viewer,
}

#[derive(Clone, Debug, PartialEq, Eq)]
struct User {
    id: u64,
    handle: String,
    email: String,
    region: Region,
    status: AccountStatus,
    plan: Plan,
    team: String,
    seat: u16,
}

impl Entity for User {
    type Key = u64;

    fn key(&self) -> u64 {
        self.id
    }

    fn to_bytes(&self) -> Result<Vec<u8>, CodecError> {
        Ok(format!(
            "{}|{}|{}|{}|{}|{}|{}|{}",
            self.id,
            self.handle,
            self.email,
            self.region.as_str(),
            self.status.as_str(),
            self.plan.as_str(),
            self.team,
            self.seat
        )
        .into_bytes())
    }

    fn from_bytes(bytes: &[u8]) -> Result<Self, CodecError> {
        let text = std::str::from_utf8(bytes).unwrap();
        let fields = text.split('|').collect::<Vec<_>>();
        assert_eq!(fields.len(), 8, "malformed user fixture: {text}");

        Ok(Self {
            id: fields[0].parse().unwrap(),
            handle: fields[1].to_string(),
            email: fields[2].to_string(),
            region: Region::parse(fields[3]),
            status: AccountStatus::parse(fields[4]),
            plan: Plan::parse(fields[5]),
            team: fields[6].to_string(),
            seat: fields[7].parse().unwrap(),
        })
    }
}

#[derive(Clone, Debug, PartialEq, Eq)]
struct Membership {
    org: String,
    user_id: u64,
    role: Role,
    label: String,
}

impl Entity for Membership {
    type Key = (String, u64);

    fn key(&self) -> (String, u64) {
        (self.org.clone(), self.user_id)
    }

    fn to_bytes(&self) -> Result<Vec<u8>, CodecError> {
        Ok(format!(
            "{}|{}|{}|{}",
            self.org,
            self.user_id,
            self.role.as_str(),
            self.label
        )
        .into_bytes())
    }

    fn from_bytes(bytes: &[u8]) -> Result<Self, CodecError> {
        let text = std::str::from_utf8(bytes).unwrap();
        let fields = text.split('|').collect::<Vec<_>>();
        assert_eq!(fields.len(), 4, "malformed membership fixture: {text}");

        Ok(Self {
            org: fields[0].to_string(),
            user_id: fields[1].parse().unwrap(),
            role: Role::parse(fields[2]),
            label: fields[3].to_string(),
        })
    }
}

struct UniqueEmail;
struct UniqueRegionHandle;
struct UniqueRegionPlanHandle;
struct ByStatus;
struct ByRegionStatus;
struct ByTeamStatusSeat;

impl Index<User> for UniqueEmail {
    type Key = String;
    type Kind = Unique;

    fn name() -> &'static str {
        "unique_email"
    }

    fn key(entity: &User) -> String {
        entity.email.clone()
    }
}

impl Index<User> for UniqueRegionHandle {
    type Key = (u8, String);
    type Kind = Unique;

    fn name() -> &'static str {
        "unique_region_handle"
    }

    fn key(entity: &User) -> (u8, String) {
        (entity.region.code(), entity.handle.clone())
    }
}

impl Index<User> for UniqueRegionPlanHandle {
    type Key = (u8, u8, String);
    type Kind = Unique;

    fn name() -> &'static str {
        "unique_region_plan_handle"
    }

    fn key(entity: &User) -> (u8, u8, String) {
        (entity.region.code(), entity.plan.code(), entity.handle.clone())
    }
}

impl Index<User> for ByStatus {
    type Key = (u8,);
    type Kind = Multi;

    fn name() -> &'static str {
        "by_status"
    }

    fn key(entity: &User) -> (u8,) {
        (entity.status.code(),)
    }
}

impl Index<User> for ByRegionStatus {
    type Key = (u8, u8);
    type Kind = Multi;

    fn name() -> &'static str {
        "by_region_status"
    }

    fn key(entity: &User) -> (u8, u8) {
        (entity.region.code(), entity.status.code())
    }
}

impl Index<User> for ByTeamStatusSeat {
    type Key = (String, u8, u16);
    type Kind = Multi;

    fn name() -> &'static str {
        "by_team_status_seat"
    }

    fn key(entity: &User) -> (String, u8, u16) {
        (entity.team.clone(), entity.status.code(), entity.seat)
    }
}

fn user_collection<DB: MultiStore>(name: &'static str, db: DB) -> UserCollection<DB> {
    let mut db = db;
    db.prepare(
        name,
        &[
            "__main",
            UniqueEmail::name(),
            UniqueRegionHandle::name(),
            UniqueRegionPlanHandle::name(),
            ByStatus::name(),
            ByRegionStatus::name(),
            ByTeamStatusSeat::name(),
        ],
    )
    .unwrap();

    collection::<User, DB>(name, db)
        .with_index::<UniqueEmail>()
        .with_index::<UniqueRegionHandle>()
        .with_index::<UniqueRegionPlanHandle>()
        .with_index::<ByStatus>()
        .with_index::<ByRegionStatus>()
        .with_index::<ByTeamStatusSeat>()
        .build()
}

fn membership_collection<DB: MultiStore>(name: &'static str, db: DB) -> MembershipCollection<DB> {
    let mut db = db;
    db.prepare(name, &["__main"]).unwrap();
    collection::<Membership, DB>(name, db).build()
}

fn user(
    id: u64,
    handle: &str,
    email: &str,
    region: Region,
    status: AccountStatus,
    plan: Plan,
    team: &str,
    seat: u16,
) -> User {
    User {
        id,
        handle: handle.to_string(),
        email: email.to_string(),
        region,
        status,
        plan,
        team: team.to_string(),
        seat,
    }
}

fn membership(org: &str, user_id: u64, role: Role, label: &str) -> Membership {
    Membership {
        org: org.to_string(),
        user_id,
        role,
        label: label.to_string(),
    }
}

impl Region {
    fn code(self) -> u8 {
        match self {
            Self::Americas => 0,
            Self::Europe => 1,
            Self::Pacific => 2,
        }
    }

    fn as_str(self) -> &'static str {
        match self {
            Self::Americas => "americas",
            Self::Europe => "europe",
            Self::Pacific => "pacific",
        }
    }

    fn parse(value: &str) -> Self {
        match value {
            "americas" => Self::Americas,
            "europe" => Self::Europe,
            "pacific" => Self::Pacific,
            _ => panic!("unknown region: {value}"),
        }
    }
}

impl AccountStatus {
    fn code(self) -> u8 {
        match self {
            Self::Invited => 0,
            Self::Active => 1,
            Self::Suspended => 2,
        }
    }

    fn as_str(self) -> &'static str {
        match self {
            Self::Invited => "invited",
            Self::Active => "active",
            Self::Suspended => "suspended",
        }
    }

    fn parse(value: &str) -> Self {
        match value {
            "invited" => Self::Invited,
            "active" => Self::Active,
            "suspended" => Self::Suspended,
            _ => panic!("unknown account status: {value}"),
        }
    }
}

impl Plan {
    fn code(self) -> u8 {
        match self {
            Self::Free => 0,
            Self::Team => 1,
            Self::Enterprise => 2,
        }
    }

    fn as_str(self) -> &'static str {
        match self {
            Self::Free => "free",
            Self::Team => "team",
            Self::Enterprise => "enterprise",
        }
    }

    fn parse(value: &str) -> Self {
        match value {
            "free" => Self::Free,
            "team" => Self::Team,
            "enterprise" => Self::Enterprise,
            _ => panic!("unknown plan: {value}"),
        }
    }
}

impl Role {
    fn as_str(self) -> &'static str {
        match self {
            Self::Owner => "owner",
            Self::Maintainer => "maintainer",
            Self::Viewer => "viewer",
        }
    }

    fn parse(value: &str) -> Self {
        match value {
            "owner" => Self::Owner,
            "maintainer" => Self::Maintainer,
            "viewer" => Self::Viewer,
            _ => panic!("unknown role: {value}"),
        }
    }
}
