use groupsched::activity::{self, Activity, Status, StatusChange};
use groupsched::block::Block;
use groupsched::group::{self, GroupUserParams};
use groupsched::store::Store;
use groupsched::user::{self, Login};
use groupsched::util::{Abort, Error};

fn login(name: &str, password: &str) -> Login {
    Login { username: name.to_string(), password: password.to_string() }
}

/// Users A and B in group "Trip" (A its admin), A busy in [10,12),
/// B busy in [20,22), and an activity over [11,15).
fn trip_setup() -> (Store, u64, u64, u64, u64) {
    let mut db = Store::new();
    let a = user::register(&mut db, login("alice", "secret")).unwrap();
    let b = user::register(&mut db, login("bob", "hunter2")).unwrap();
    let g = group::create(&mut db, a, "Trip".to_string());
    group::add_user(&mut db, a, GroupUserParams { group_id: g, user_id: b }).unwrap();
    user::add_block(&mut db, a, 10, 12).unwrap();
    user::add_block(&mut db, b, 20, 22).unwrap();
    let window = Block::new(11, 15).unwrap();
    let act = activity::create(&mut db, a, Activity::new(g, window, "Hike".to_string(), 1, 2)).unwrap();
    (db, a, b, g, act)
}

fn status(db: &Store, u: u64, act: u64) -> Option<Status> {
    activity::list(db, u).iter().find(|(id, _)| *id == act).map(|(_, s)| s.status)
}

#[test]
fn trip_activity_initial_statuses() {
    let (db, a, b, g, act) = trip_setup();
    let groups = group::list(&db, a);
    assert_eq!(groups.len(), 1);
    assert_eq!(groups[0].0, g);
    assert_eq!(groups[0].1.name, "Trip");
    assert_eq!(status(&db, a, act), Some(Status::Denied));
    assert_eq!(status(&db, b, act), Some(Status::Pending));
    let header = &db.activities[act as usize];
    assert_eq!(header.pending, 1);
    assert_eq!(header.accepted, 0);
    assert_eq!(header.group_id, g);
    assert_eq!(header.description, "Hike");
}

#[test]
fn member_accepts_trip_activity() {
    let (mut db, _a, b, _g, act) = trip_setup();
    activity::change_status(&mut db, b, StatusChange { activity_id: act, status: Status::Accepted }).unwrap();
    let header = &db.activities[act as usize];
    assert_eq!(header.pending, 0);
    assert_eq!(header.accepted, 1);
    assert_eq!(status(&db, b, act), Some(Status::Accepted));
    let listed = activity::list(&db, b);
    assert_eq!(listed.len(), 1);
    assert_eq!(listed[0].1.activity.accepted, 1);
}

#[test]
fn sole_admin_removes_self() {
    let (mut db, a, b, g, _act) = trip_setup();
    assert!(group::remove_user(&mut db, a, GroupUserParams { group_id: g, user_id: a }).is_ok());
    let users = &db.groups[g as usize].users;
    assert_eq!(users.len(), 1);
    assert_eq!(users[0], (b, false));
    assert!(group::list(&db, a).is_empty());
}

#[test]
fn member_cannot_remove_admin() {
    let (mut db, a, b, g, _act) = trip_setup();
    assert_eq!(
        group::remove_user(&mut db, b, GroupUserParams { group_id: g, user_id: a }),
        Err(Abort::NotAllowed)
    );
    assert_eq!(db.groups[g as usize].users.len(), 2);
}

#[test]
fn malformed_and_overlapping_blocks() {
    let (mut db, a, _b, _g, _act) = trip_setup();
    assert_eq!(user::add_block(&mut db, a, 5, 3), Err(Abort::Malformed));
    assert_eq!(user::add_block(&mut db, a, 11, 13), Err(Abort::Conflict));
    assert_eq!(user::get(&db, a).unwrap().blocks, vec![Block { start: 10, end: 12 }]);
}

#[test]
fn empty_block_is_malformed() {
    let (mut db, a, _b, _g, _act) = trip_setup();
    assert_eq!(user::add_block(&mut db, a, 7, 7), Err(Abort::Malformed));
    assert!(Block::new(7, 7).is_none());
}

#[test]
fn block_overlapping_a_later_block_conflicts() {
    let mut db = Store::new();
    let a = user::register(&mut db, login("carol", "pass1234")).unwrap();
    user::add_block(&mut db, a, 20, 22).unwrap();
    assert_eq!(user::add_block(&mut db, a, 15, 21), Err(Abort::Conflict));
    assert_eq!(user::add_block(&mut db, a, 21, 30), Err(Abort::Conflict));
    assert_eq!(user::add_block(&mut db, a, 20, 22), Err(Abort::Conflict));
    user::add_block(&mut db, a, 22, 25).unwrap();
    user::add_block(&mut db, a, 1, 20).unwrap();
    let blocks = &user::get(&db, a).unwrap().blocks;
    assert_eq!(blocks, &vec![
        Block { start: 1, end: 20 },
        Block { start: 20, end: 22 },
        Block { start: 22, end: 25 },
    ]);
    for i in 0..blocks.len() {
        for j in 0..blocks.len() {
            if i != j {
                assert!(!blocks[i].intersects(&blocks[j]));
            }
        }
    }
}

#[test]
fn remove_block_by_start() {
    let mut db = Store::new();
    let a = user::register(&mut db, login("dave", "pass1234")).unwrap();
    user::add_block(&mut db, a, 3, 5).unwrap();
    user::add_block(&mut db, a, 8, 9).unwrap();
    assert_eq!(user::remove_block(&mut db, a, 4), Err(Abort::NotFound));
    assert_eq!(user::remove_block(&mut db, a + 1, 3), Err(Abort::NotFound));
    user::remove_block(&mut db, a, 3).unwrap();
    assert_eq!(user::get(&db, a).unwrap().blocks, vec![Block { start: 8, end: 9 }]);
    user::add_block(&mut db, a, 3, 8).unwrap();
}

#[test]
fn intersects_is_half_open() {
    let x = Block { start: 10, end: 12 };
    assert!(x.intersects(&Block { start: 11, end: 15 }));
    assert!(!x.intersects(&Block { start: 12, end: 15 }));
    assert!(!x.intersects(&Block { start: 5, end: 10 }));
    assert!(x.intersects(&Block { start: 0, end: 100 }));
}

#[test]
fn create_activity_makes_one_row_per_member() {
    let mut db = Store::new();
    let a = user::register(&mut db, login("a1", "pass1234")).unwrap();
    let g = group::create(&mut db, a, "Club".to_string());
    for i in 0..4u64 {
        group::add_user(&mut db, a, GroupUserParams { group_id: g, user_id: 100 + i }).unwrap();
    }
    let act = activity::create(&mut db, a, Activity::new(g, Block { start: 1, end: 2 }, "Meet".to_string(), 0, 0)).unwrap();
    let rows: Vec<_> = db.statuses.iter().filter(|r| r.activity_id == act).collect();
    assert_eq!(rows.len(), 5);
    let active = rows.iter().filter(|r| r.status != Status::Denied).count() as u64;
    let header = &db.activities[act as usize];
    assert_eq!(header.pending + header.accepted, active);
    assert_eq!(header.pending, 5);
}

#[test]
fn create_activity_ignores_given_counters() {
    let mut db = Store::new();
    let a = user::register(&mut db, login("a2", "pass1234")).unwrap();
    let g = group::create(&mut db, a, "Club".to_string());
    let mut proposal = Activity::new(g, Block { start: 1, end: 2 }, "Meet".to_string(), 0, 0);
    proposal.accepted = 9;
    proposal.pending = 9;
    let act = activity::create(&mut db, a, proposal).unwrap();
    assert_eq!(db.activities[act as usize].accepted, 0);
    assert_eq!(db.activities[act as usize].pending, 1);
}

#[test]
fn create_activity_errors() {
    let (mut db, a, _b, g, _act) = trip_setup();
    let window = Block { start: 1, end: 2 };
    assert_eq!(activity::create(&mut db, a, Activity::new(g + 7, window, "x".to_string(), 0, 0)), Err(Abort::NotFound));
    assert_eq!(activity::create(&mut db, 999, Activity::new(g, window, "x".to_string(), 0, 0)), Err(Abort::NotFound));
    let empty = Block { start: 2, end: 2 };
    assert_eq!(activity::create(&mut db, a, Activity::new(g, empty, "x".to_string(), 0, 0)), Err(Abort::Malformed));
    assert_eq!(db.activities.len(), 1);
}

#[test]
fn change_status_twice_same_counters() {
    let (mut db, _a, b, _g, act) = trip_setup();
    let change = StatusChange { activity_id: act, status: Status::Accepted };
    activity::change_status(&mut db, b, change).unwrap();
    let once = (db.activities[act as usize].pending, db.activities[act as usize].accepted);
    activity::change_status(&mut db, b, change).unwrap();
    let twice = (db.activities[act as usize].pending, db.activities[act as usize].accepted);
    assert_eq!(once, twice);
    assert_eq!(twice, (0, 1));
}

#[test]
fn change_status_round_trip() {
    let (mut db, _a, b, _g, act) = trip_setup();
    let before = (db.activities[act as usize].pending, db.activities[act as usize].accepted);
    for s in [Status::Pending, Status::Accepted, Status::Pending] {
        activity::change_status(&mut db, b, StatusChange { activity_id: act, status: s }).unwrap();
    }
    let after = (db.activities[act as usize].pending, db.activities[act as usize].accepted);
    assert_eq!(before, after);
}

#[test]
fn denied_member_may_accept() {
    let (mut db, a, _b, _g, act) = trip_setup();
    activity::change_status(&mut db, a, StatusChange { activity_id: act, status: Status::Accepted }).unwrap();
    assert_eq!(db.activities[act as usize].pending, 1);
    assert_eq!(db.activities[act as usize].accepted, 1);
    activity::change_status(&mut db, a, StatusChange { activity_id: act, status: Status::Denied }).unwrap();
    assert_eq!(db.activities[act as usize].accepted, 0);
}

#[test]
fn change_status_needs_invitation() {
    let (mut db, a, b, g, act) = trip_setup();
    let c = user::register(&mut db, login("carl", "pass1234")).unwrap();
    group::add_user(&mut db, a, GroupUserParams { group_id: g, user_id: c }).unwrap();
    let change = StatusChange { activity_id: act, status: Status::Accepted };
    assert_eq!(activity::change_status(&mut db, c, change), Err(Abort::NotAllowed));
    let missing = StatusChange { activity_id: act + 1, status: Status::Accepted };
    assert_eq!(activity::change_status(&mut db, b, missing), Err(Abort::NotAllowed));
    assert!(activity::list(&db, c).is_empty());
}

#[test]
fn add_user_rules() {
    let (mut db, a, b, g, _act) = trip_setup();
    assert_eq!(group::add_user(&mut db, b, GroupUserParams { group_id: g, user_id: 50 }), Err(Abort::NotAllowed));
    assert_eq!(group::add_user(&mut db, 77, GroupUserParams { group_id: g, user_id: 50 }), Err(Abort::NotAllowed));
    assert_eq!(group::add_user(&mut db, a, GroupUserParams { group_id: g + 1, user_id: 50 }), Err(Abort::NotFound));
    group::add_user(&mut db, a, GroupUserParams { group_id: g, user_id: 50 }).unwrap();
    assert_eq!(db.groups[g as usize].users.len(), 3);
    assert_eq!(group::list(&db, 50).len(), 1);
}

#[test]
fn remove_user_rules() {
    let (mut db, a, b, g, _act) = trip_setup();
    assert_eq!(group::remove_user(&mut db, a, GroupUserParams { group_id: g, user_id: 42 }), Err(Abort::NotFound));
    assert_eq!(group::remove_user(&mut db, a, GroupUserParams { group_id: g + 3, user_id: b }), Err(Abort::NotFound));
    group::add_user(&mut db, a, GroupUserParams { group_id: g, user_id: 42 }).unwrap();
    assert_eq!(group::remove_user(&mut db, b, GroupUserParams { group_id: g, user_id: 42 }), Err(Abort::NotAllowed));
    group::remove_user(&mut db, b, GroupUserParams { group_id: g, user_id: b }).unwrap();
    group::remove_user(&mut db, a, GroupUserParams { group_id: g, user_id: 42 }).unwrap();
    assert_eq!(db.groups[g as usize].users, vec![(a, true)]);
}

#[test]
fn make_admin_rules() {
    let (mut db, a, b, g, _act) = trip_setup();
    assert_eq!(group::make_admin(&mut db, b, GroupUserParams { group_id: g, user_id: b }), Err(Abort::NotAllowed));
    assert_eq!(group::make_admin(&mut db, 9, GroupUserParams { group_id: g, user_id: b }), Err(Abort::NotFound));
    assert_eq!(group::make_admin(&mut db, a, GroupUserParams { group_id: g, user_id: 9 }), Err(Abort::NotFound));
    assert_eq!(group::make_admin(&mut db, a, GroupUserParams { group_id: g + 1, user_id: b }), Err(Abort::NotFound));
    group::make_admin(&mut db, a, GroupUserParams { group_id: g, user_id: b }).unwrap();
    group::remove_user(&mut db, b, GroupUserParams { group_id: g, user_id: b }).unwrap();
    assert_eq!(db.groups[g as usize].users, vec![(a, true)]);
}

#[test]
fn group_ids_are_sequential() {
    let mut db = Store::new();
    assert_eq!(group::create(&mut db, 1, "one".to_string()), 0);
    assert_eq!(group::create(&mut db, 2, "two".to_string()), 1);
    assert_eq!(group::list(&db, 2)[0].0, 1);
    assert_eq!(db.groups[0].users, vec![(1, true)]);
}

#[test]
fn register_rules() {
    let mut db = Store::new();
    assert!(matches!(user::register(&mut db, login("eve", "abc")), Err(Error::Abort(Abort::Malformed))));
    assert_eq!(user::register(&mut db, login("eve", "abcd")).unwrap(), 0);
    assert!(matches!(user::register(&mut db, login("eve", "other-password")), Err(Error::Abort(Abort::Conflict))));
    assert_eq!(user::register(&mut db, login("frank", "abcd")).unwrap(), 1);
    assert_eq!(db.users.len(), 2);
    assert_ne!(db.passwords[0], "abcd");
    assert!(matches!(user::get(&db, 5), Err(Abort::NotFound)));
}

#[test]
fn login_and_logout() {
    let mut db = Store::new();
    let id = user::register(&mut db, login("gina", "correct horse")).unwrap();
    assert!(matches!(user::login(&mut db, &login("gina", "wrong horse")), Err(Error::AuthenticationError)));
    assert!(matches!(user::login(&mut db, &login("nobody", "correct horse")), Err(Error::AuthenticationError)));
    let session = user::login(&mut db, &login("gina", "correct horse")).unwrap();
    assert_eq!(session.token.len(), 32);
    assert_eq!(session.get(&db).unwrap(), id);
    user::logout(&mut db, &session);
    assert!(matches!(session.get(&db), Err(Error::AuthenticationError)));
}

#[test]
fn login_with_unreadable_hash() {
    let mut db = Store::new();
    user::create_user(&mut db, "hal".to_string(), "not a hash".to_string()).unwrap();
    assert!(matches!(user::login(&mut db, &login("hal", "whatever")), Err(Error::BcryptError(_))));
    assert!(db.sessions.is_empty());
}

#[test]
fn session_token_is_hex_of_bytes() {
    let mut db = Store::new();
    let s = groupsched::session::Session::from_bytes(&mut db, 7, &vec![0x00, 0xff, 0x10, 0xa5]);
    assert_eq!(s.token, "00ff10a5");
    assert_eq!(s.get(&db).unwrap(), 7);
    let t = groupsched::session::Session::from_bytes(&mut db, 8, &vec![0x00, 0xff, 0x10, 0xa5]);
    assert_eq!(t.get(&db).unwrap(), 8);
    assert_eq!(db.sessions.len(), 1);
    assert_eq!(groupsched::session::to_hex(&vec![]), "");
}

#[test]
fn fresh_sessions_differ() {
    let mut db = Store::new();
    let s1 = groupsched::session::Session::new(&mut db, 1).unwrap();
    let s2 = groupsched::session::Session::new(&mut db, 2).unwrap();
    assert_eq!(s1.token.len(), 32);
    assert_ne!(s1.token, s2.token);
    assert_eq!(s1.get(&db).unwrap(), 1);
    assert_eq!(s2.get(&db).unwrap(), 2);
}
