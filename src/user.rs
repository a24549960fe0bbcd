use vstd::prelude::*;
use crate::block::{
    lemma_sorted_disjoint_is_pairwise, pairwise_disjoint,
    insertion_point, lemma_insert_keeps_sorted, lemma_insert_to_set, lemma_remove_sorted,
    overlaps_any, overlaps_neighbour, Block,
};
use crate::session::{session_user, Session};
use crate::store::Store;
use crate::util::{Abort, Error};
use vstd::utf8::encode_utf8;

verus! {

/// Credentials as a client submits them.
#[derive(Debug)]
pub struct Login {
    pub username: String,
    pub password: String,
}

/// A registered user and the blocks of time they are unavailable, ascending by start.
#[derive(Debug)]
pub struct User {
    pub username: String,
    pub blocks: Vec<Block>,
}

/// Cost factor handed to bcrypt when a password is hashed.
pub const HASH_COST: u32 = 4;

/// Fewest bytes a password may have.
pub const MIN_PASSWORD_BYTES: usize = 4;

/// Whether `password` matches the bcrypt hash `hash`, or `None` where the hash cannot be read.
pub uninterp spec fn password_matches(password: Seq<char>, hash: Seq<char>) -> Option<bool>;

/// Relies on bcrypt::hash: a salted bcrypt hash of the password at the given cost. The salt
/// is drawn at random, so nothing is said of the result.
#[verifier::external_body]
fn hash_password(password: &str, cost: u32) -> (r: Result<String, bcrypt::BcryptError>) {
    bcrypt::hash(password, cost)
}

/// Relies on bcrypt::verify: hashes the password under the cost and salt read from `hash`
/// and compares; fails when `hash` is not a well-formed bcrypt hash.
#[verifier::external_body]
fn verify_password(password: &str, hash: &str) -> (r: Result<bool, bcrypt::BcryptError>)
    ensures
        match r {
            Ok(b) => password_matches(password@, hash@) == Some(b),
            Err(_) => password_matches(password@, hash@) is None,
        },
{
    bcrypt::verify(password, hash)
}

/// Some user has this username.
pub open spec fn username_taken(users: Seq<User>, name: Seq<char>) -> bool {
    exists|i: int| 0 <= i < users.len() && (#[trigger] users[i]).username@ == name
}

/// The id of the user with this username.
pub open spec fn user_id_of(users: Seq<User>, name: Seq<char>) -> Option<int> {
    if username_taken(users, name) {
        Some(choose|i: int| 0 <= i < users.len() && (#[trigger] users[i]).username@ == name)
    } else {
        None
    }
}

/// `after` is `before` with one more user, `id`, named `name`, with no blocks.
pub open spec fn user_added(before: Store, after: Store, id: u64, name: Seq<char>) -> bool {
    &&& id == before.users@.len()
    &&& after.users@.len() == before.users@.len() + 1
    &&& after.passwords@.len() == before.passwords@.len() + 1
    &&& after.users@[id as int].username@ == name
    &&& after.users@[id as int].blocks@.len() == 0
    &&& forall|i: int| 0 <= i < id ==> after.users@[i] == before.users@[i]
    &&& forall|i: int| 0 <= i < id ==> after.passwords@[i] == before.passwords@[i]
    &&& after.sessions == before.sessions
    &&& after.groups == before.groups
    &&& after.activities == before.activities
    &&& after.statuses == before.statuses
}

/// `after` differs from `before` at most in the blocks of user `id`.
pub open spec fn only_blocks_changed(before: Store, after: Store, id: int) -> bool {
    &&& after.users@.len() == before.users@.len()
    &&& forall|i: int| 0 <= i < before.users@.len() && i != id ==> after.users@[i] == before.users@[i]
    &&& after.users@[id].username == before.users@[id].username
    &&& after.passwords == before.passwords
    &&& after.sessions == before.sessions
    &&& after.groups == before.groups
    &&& after.activities == before.activities
    &&& after.statuses == before.statuses
}

proof fn lemma_user_id_of(users: Seq<User>, i: int)
    requires
        0 <= i < users.len(),
        forall|k: int, l: int| 0 <= k < users.len() && 0 <= l < users.len() && k != l
            ==> (#[trigger] users[k]).username@ != (#[trigger] users[l]).username@,
    ensures
        user_id_of(users, users[i].username@) == Some(i),
{
    assert(username_taken(users, users[i].username@));
}

/// The id of the user with this username.
pub fn find_user(db: &Store, username: &String) -> (r: Option<usize>)
    requires
        db.wf(),
    ensures
        match user_id_of(db.users@, username@) {
            Some(i) => r == Some(i as usize),
            None => r is None,
        },
        r matches Some(i) ==> i < db.users@.len() && db.users@[i as int].username@ == username@,
{
    let mut i: usize = 0;
    while i < db.users.len()
        invariant
            db.wf(),
            i <= db.users@.len(),
            forall|k: int| 0 <= k < i ==> (#[trigger] db.users@[k]).username@ != username@,
        decreases db.users@.len() - i,
    {
        if db.users[i].username == *username {
            proof {
                lemma_user_id_of(db.users@, i as int);
            }
            return Some(i);
        }
        i = i + 1;
    }
    None
}

/// Stores a new user under the next id, with its password hash and no blocks; refuses a
/// username that is already taken.
pub fn create_user(db: &mut Store, username: String, password_hash: String) -> (r: Result<u64, Abort>)
    requires
        old(db).wf(),
    ensures
        final(db).wf(),
        username_taken(old(db).users@, username@) ==> r == Err::<u64, Abort>(Abort::Conflict),
        !username_taken(old(db).users@, username@) ==> r is Ok,
        r is Err ==> *final(db) == *old(db),
        r matches Ok(id) ==> user_added(*old(db), *final(db), id, username@)
            && final(db).passwords@[id as int]@ == password_hash@,
{
    match find_user(db, &username) {
        Some(_) => Err(Abort::Conflict),
        None => {
            let id = db.users.len() as u64;
            let ghost name = username@;
            db.users.push(User { username, blocks: Vec::new() });
            db.passwords.push(password_hash);
            proof {
                assert(!username_taken(old(db).users@, name));
                assert forall|i: int| 0 <= i < id implies (#[trigger] db.users@[i]).username@ != name by {
                    assert(db.users@[i] == old(db).users@[i]);
                }
            }
            Ok(id)
        },
    }
}

/// Registers a user: the password must have at least `MIN_PASSWORD_BYTES` bytes and the
/// username must be free. The password is stored as a bcrypt hash.
pub fn register(db: &mut Store, login: Login) -> (r: Result<u64, Error>)
    requires
        old(db).wf(),
    ensures
        final(db).wf(),
        encode_utf8(login.password@).len() < MIN_PASSWORD_BYTES ==> r matches Err(
            Error::Abort(Abort::Malformed),
        ),
        encode_utf8(login.password@).len() >= MIN_PASSWORD_BYTES && username_taken(
            old(db).users@,
            login.username@,
        ) ==> r matches Err(Error::Abort(Abort::Conflict)),
        encode_utf8(login.password@).len() >= MIN_PASSWORD_BYTES && !username_taken(
            old(db).users@,
            login.username@,
        ) ==> r is Ok || r matches Err(Error::BcryptError(_)),
        r is Err ==> *final(db) == *old(db),
        r matches Ok(id) ==> user_added(*old(db), *final(db), id, login.username@),
{
    if login.password.as_str().as_bytes().len() < MIN_PASSWORD_BYTES {
        return Err(Error::Abort(Abort::Malformed));
    }
    if find_user(db, &login.username).is_some() {
        return Err(Error::Abort(Abort::Conflict));
    }
    match hash_password(login.password.as_str(), HASH_COST) {
        Ok(hash) => match create_user(db, login.username, hash) {
            Ok(id) => Ok(id),
            Err(e) => Err(Error::Abort(e)),
        },
        Err(e) => Err(Error::BcryptError(e)),
    }
}

/// Checks the credentials and, where they match, opens a session for the user.
pub fn login(db: &mut Store, credentials: &Login) -> (r: Result<Session, Error>)
    requires
        old(db).wf(),
    ensures
        final(db).wf(),
        match user_id_of(old(db).users@, credentials.username@) {
            None => r matches Err(Error::AuthenticationError),
            Some(id) => match password_matches(credentials.password@, old(db).passwords@[id]@) {
                None => r matches Err(Error::BcryptError(_)),
                Some(false) => r matches Err(Error::AuthenticationError),
                Some(true) => r matches Err(Error::RandError) || (r matches Ok(s)
                    && session_user(final(db).sessions@, s.token@) == Some(id as u64)),
            },
        },
        r is Err ==> *final(db) == *old(db),
        r matches Ok(s) ==> forall|t: Seq<char>| t != s.token@ ==> session_user(final(db).sessions@, t)
            == session_user(old(db).sessions@, t),
        final(db).users == old(db).users,
        final(db).passwords == old(db).passwords,
        final(db).groups == old(db).groups,
        final(db).activities == old(db).activities,
        final(db).statuses == old(db).statuses,
{
    match find_user(db, &credentials.username) {
        None => Err(Error::AuthenticationError),
        Some(id) => {
            let matched = verify_password(credentials.password.as_str(), db.passwords[id].as_str());
            match matched {
                Ok(true) => Session::new(db, id as u64),
                Ok(false) => Err(Error::AuthenticationError),
                Err(e) => Err(Error::BcryptError(e)),
            }
        },
    }
}

/// Ends the given session.
pub fn logout(db: &mut Store, session: &Session)
    requires
        old(db).wf(),
    ensures
        final(db).wf(),
        session_user(final(db).sessions@, session.token@) is None,
        forall|t: Seq<char>| t != session.token@ ==> session_user(final(db).sessions@, t)
            == session_user(old(db).sessions@, t),
        final(db).users == old(db).users,
        final(db).passwords == old(db).passwords,
        final(db).groups == old(db).groups,
        final(db).activities == old(db).activities,
        final(db).statuses == old(db).statuses,
{
    session.delete(db);
}

/// The user with this id, with their blocks in ascending order.
pub fn get(db: &Store, user_id: u64) -> (r: Result<&User, Abort>)
    ensures
        user_id < db.users@.len() ==> (r matches Ok(u) && *u == db.users@[user_id as int]),
        user_id >= db.users@.len() ==> r == Err::<&User, Abort>(Abort::NotFound),
{
    if user_id < db.users.len() as u64 {
        Ok(&db.users[user_id as usize])
    } else {
        Err(Abort::NotFound)
    }
}

/// Records that the user is unavailable during `[start, end)`. Refused as malformed when the
/// interval is empty, and as a conflict when it overlaps one of the user's blocks.
pub fn add_block(db: &mut Store, user_id: u64, start: u64, end: u64) -> (r: Result<(), Abort>)
    requires
        old(db).wf(),
    ensures
        final(db).wf(),
        start >= end ==> r == Err::<(), Abort>(Abort::Malformed),
        start < end && user_id >= old(db).users@.len() ==> r == Err::<(), Abort>(Abort::NotFound),
        start < end && user_id < old(db).users@.len() && overlaps_any(
            old(db).users@[user_id as int].blocks@,
            (Block { start, end }),
        ) ==> r == Err::<(), Abort>(Abort::Conflict),
        start < end && user_id < old(db).users@.len() && !overlaps_any(
            old(db).users@[user_id as int].blocks@,
            (Block { start, end }),
        ) ==> r is Ok,
        r is Err ==> *final(db) == *old(db),
        r is Ok ==> only_blocks_changed(*old(db), *final(db), user_id as int)
            && final(db).users@[user_id as int].blocks@.to_set()
            == old(db).users@[user_id as int].blocks@.to_set().insert((Block { start, end })),
{
    if start >= end {
        return Err(Abort::Malformed);
    }
    if user_id >= db.users.len() as u64 {
        return Err(Abort::NotFound);
    }
    let uid = user_id as usize;
    let b = Block { start, end };
    let pos = insertion_point(&db.users[uid].blocks, &b);
    if overlaps_neighbour(&db.users[uid].blocks, &b, pos) {
        return Err(Abort::Conflict);
    }
    let ghost old_blocks = db.users@[uid as int].blocks@;
    let mut user = db.users.remove(uid);
    user.blocks.insert(pos, b);
    db.users.insert(uid, user);
    proof {
        lemma_insert_keeps_sorted(old_blocks, b, pos as int);
        lemma_insert_to_set(old_blocks, pos as int, b);
        assert(db.users@ =~= old(db).users@.update(uid as int, db.users@[uid as int]));
    }
    Ok(())
}

/// Deletes the user's block that starts at `start`; not found when there is none.
pub fn remove_block(db: &mut Store, user_id: u64, start: u64) -> (r: Result<(), Abort>)
    requires
        old(db).wf(),
    ensures
        final(db).wf(),
        user_id >= old(db).users@.len() ==> r == Err::<(), Abort>(Abort::NotFound),
        user_id < old(db).users@.len() ==> (r is Ok <==> exists|i: int|
            0 <= i < old(db).users@[user_id as int].blocks@.len()
                && (#[trigger] old(db).users@[user_id as int].blocks@[i]).start == start),
        r is Err ==> r == Err::<(), Abort>(Abort::NotFound) && *final(db) == *old(db),
        r is Ok ==> only_blocks_changed(*old(db), *final(db), user_id as int)
            && final(db).users@[user_id as int].blocks@.to_set()
            == old(db).users@[user_id as int].blocks@.to_set().filter(|b: Block| b.start != start),
{
    if user_id >= db.users.len() as u64 {
        return Err(Abort::NotFound);
    }
    let uid = user_id as usize;
    let mut i: usize = 0;
    let n = db.users[uid].blocks.len();
    while i < n
        invariant
            *db == *old(db),
            db.wf(),
            uid == user_id,
            uid < db.users@.len(),
            n == db.users@[uid as int].blocks@.len(),
            i <= n,
            forall|k: int| 0 <= k < i ==> (#[trigger] db.users@[uid as int].blocks@[k]).start != start,
        decreases n - i,
    {
        if db.users[uid].blocks[i].start == start {
            let ghost old_blocks = db.users@[uid as int].blocks@;
            assert(old_blocks[i as int].start == start);
            let mut user = db.users.remove(uid);
            user.blocks.remove(i);
            db.users.insert(uid, user);
            proof {
                lemma_remove_sorted(old_blocks, i as int);
                assert(db.users@ =~= old(db).users@.update(uid as int, db.users@[uid as int]));
            }
            return Ok(());
        }
        i = i + 1;
    }
    Err(Abort::NotFound)
}

/// In a well-formed store no two blocks of one user overlap; every operation keeps the
/// store well formed.
pub proof fn lemma_stored_blocks_disjoint(db: Store, user_id: int)
    requires
        db.wf(),
        0 <= user_id < db.users@.len(),
    ensures
        pairwise_disjoint(db.users@[user_id].blocks@),
{
    lemma_sorted_disjoint_is_pairwise(db.users@[user_id].blocks@);
}

} // verus!
