use vstd::prelude::*;
use crate::store::Store;
use crate::util::Abort;

verus! {

/// A named group; `users` pairs each member's id with its admin flag.
#[derive(Debug)]
pub struct Group {
    pub name: String,
    pub users: Vec<(u64, bool)>,
}

/// No user id occurs twice in a member list.
pub open spec fn unique_members(s: Seq<(u64, bool)>) -> bool {
    forall|i: int, j: int| 0 <= i < s.len() && 0 <= j < s.len() && i != j ==> (#[trigger] s[i]).0 != (#[trigger] s[j]).0
}

/// The admin flag of `u` in a member list, or `None` when `u` is not a member.
pub open spec fn role_of(s: Seq<(u64, bool)>, u: u64) -> Option<bool> {
    if exists|i: int| 0 <= i < s.len() && (#[trigger] s[i]).0 == u {
        Some(s[choose|i: int| 0 <= i < s.len() && (#[trigger] s[i]).0 == u].1)
    } else {
        None
    }
}

/// A member list read as a map from user id to admin flag.
pub open spec fn members(s: Seq<(u64, bool)>) -> Map<u64, bool> {
    Map::new(|u: u64| role_of(s, u) is Some, |u: u64| role_of(s, u)->0)
}

impl Group {
    pub open spec fn wf(&self) -> bool {
        unique_members(self.users@)
    }
}

/// In a list without repeated ids, `role_of` reads the flag of the entry with the id.
pub proof fn lemma_role_at(s: Seq<(u64, bool)>, i: int)
    requires
        unique_members(s),
        0 <= i < s.len(),
    ensures
        role_of(s, s[i].0) == Some(s[i].1),
{
    let u = s[i].0;
    let j = choose|j: int| 0 <= j < s.len() && (#[trigger] s[j]).0 == u;
    assert(s[j].0 == u);
}

/// The member map agrees with the member list on every user.
pub proof fn lemma_members_get(s: Seq<(u64, bool)>)
    ensures
        forall|u: u64| #[trigger] members(s).get(u) == role_of(s, u),
{
    assert forall|u: u64| #[trigger] members(s).get(u) == role_of(s, u) by {
        if role_of(s, u) is Some {
            assert(members(s).dom().contains(u));
        } else {
            assert(!members(s).dom().contains(u));
        }
    }
}

/// A group and a user of it, as a client names them.
#[derive(Clone, Copy, Debug, PartialEq, Eq, Structural)]
pub struct GroupUserParams {
    pub group_id: u64,
    pub user_id: u64,
}

/// Setting the flag of a present member changes only that member's entry.
pub proof fn lemma_members_update(s: Seq<(u64, bool)>, i: int, v: bool)
    requires
        unique_members(s),
        0 <= i < s.len(),
    ensures
        unique_members(s.update(i, (s[i].0, v))),
        members(s.update(i, (s[i].0, v))) == members(s).insert(s[i].0, v),
{
    let t = s.update(i, (s[i].0, v));
    let k = s[i].0;
    assert forall|a: int, b: int| 0 <= a < t.len() && 0 <= b < t.len() && a != b implies (
    #[trigger] t[a]).0 != (#[trigger] t[b]).0 by {
        assert(t[a].0 == s[a].0 && t[b].0 == s[b].0);
    }
    assert forall|u: u64| role_of(t, u) == members(s).insert(k, v).get(u) by {
        if exists|j: int| 0 <= j < t.len() && (#[trigger] t[j]).0 == u {
            let j = choose|j: int| 0 <= j < t.len() && (#[trigger] t[j]).0 == u;
            lemma_role_at(t, j);
            lemma_role_at(s, j);
        } else {
            if u == k {
                assert(t[i].0 == u);
            }
            assert forall|j: int| 0 <= j < s.len() implies (#[trigger] s[j]).0 != u by {
                assert(t[j].0 == s[j].0);
            }
        }
    }
    assert(members(t) =~= members(s).insert(k, v));
}

/// Appending a user that is not yet a member adds exactly that member.
pub proof fn lemma_members_push(s: Seq<(u64, bool)>, k: u64, v: bool)
    requires
        unique_members(s),
        role_of(s, k) is None,
    ensures
        unique_members(s.push((k, v))),
        members(s.push((k, v))) == members(s).insert(k, v),
{
    let t = s.push((k, v));
    assert forall|j: int| 0 <= j < s.len() implies (#[trigger] s[j]).0 != k by {}
    assert forall|a: int, b: int| 0 <= a < t.len() && 0 <= b < t.len() && a != b implies (
    #[trigger] t[a]).0 != (#[trigger] t[b]).0 by {
        if a < s.len() {
            assert(t[a] == s[a]);
        }
        if b < s.len() {
            assert(t[b] == s[b]);
        }
    }
    assert forall|u: u64| role_of(t, u) == members(s).insert(k, v).get(u) by {
        if exists|j: int| 0 <= j < t.len() && (#[trigger] t[j]).0 == u {
            let j = choose|j: int| 0 <= j < t.len() && (#[trigger] t[j]).0 == u;
            lemma_role_at(t, j);
            if j < s.len() {
                assert(t[j] == s[j]);
                lemma_role_at(s, j);
            }
        } else {
            assert(t[s.len() as int].0 == k);
            assert forall|j: int| 0 <= j < s.len() implies (#[trigger] s[j]).0 != u by {
                assert(t[j] == s[j]);
            }
        }
    }
    assert(members(t) =~= members(s).insert(k, v));
}

/// Removing the entry at `i` removes exactly that member.
pub proof fn lemma_members_remove(s: Seq<(u64, bool)>, i: int)
    requires
        unique_members(s),
        0 <= i < s.len(),
    ensures
        unique_members(s.remove(i)),
        members(s.remove(i)) == members(s).remove(s[i].0),
{
    let t = s.remove(i);
    let k = s[i].0;
    assert forall|a: int, b: int| 0 <= a < t.len() && 0 <= b < t.len() && a != b implies (
    #[trigger] t[a]).0 != (#[trigger] t[b]).0 by {
        let a2 = if a < i { a } else { a + 1 };
        let b2 = if b < i { b } else { b + 1 };
        assert(t[a] == s[a2] && t[b] == s[b2]);
    }
    assert forall|u: u64| role_of(t, u) == members(s).remove(k).get(u) by {
        if exists|j: int| 0 <= j < t.len() && (#[trigger] t[j]).0 == u {
            let j = choose|j: int| 0 <= j < t.len() && (#[trigger] t[j]).0 == u;
            let j2 = if j < i { j } else { j + 1 };
            assert(t[j] == s[j2]);
            lemma_role_at(t, j);
            lemma_role_at(s, j2);
        } else {
            assert forall|j: int| 0 <= j < s.len() && j != i implies (#[trigger] s[j]).0 != u by {
                if j < i {
                    assert(t[j] == s[j]);
                } else {
                    assert(t[j - 1] == s[j]);
                }
            }
            if u != k {
                assert forall|j: int| 0 <= j < s.len() implies (#[trigger] s[j]).0 != u by {}
            }
        }
    }
    assert(members(t) =~= members(s).remove(k));
}

/// The position of user `u` in a member list.
pub fn find_member(users: &Vec<(u64, bool)>, u: u64) -> (r: Option<usize>)
    requires
        unique_members(users@),
    ensures
        match r {
            Some(i) => i < users@.len() && users@[i as int].0 == u && role_of(users@, u) == Some(users@[i as int].1),
            None => role_of(users@, u) is None,
        },
{
    let mut i: usize = 0;
    while i < users.len()
        invariant
            unique_members(users@),
            i <= users@.len(),
            forall|k: int| 0 <= k < i ==> (#[trigger] users@[k]).0 != u,
        decreases users@.len() - i,
    {
        if users[i].0 == u {
            proof {
                lemma_role_at(users@, i as int);
            }
            return Some(i);
        }
        i = i + 1;
    }
    None
}

/// The ids of the first `n` groups that have `u` as a member, ascending.
pub open spec fn groups_of(groups: Seq<Group>, u: u64, n: int) -> Seq<u64>
    decreases n,
{
    if n <= 0 {
        Seq::empty()
    } else if role_of(groups[n - 1].users@, u) is Some {
        groups_of(groups, u, n - 1).push((n - 1) as u64)
    } else {
        groups_of(groups, u, n - 1)
    }
}

/// `after` differs from `before` at most in the members of group `g`.
pub open spec fn only_members_changed(before: Store, after: Store, g: int) -> bool {
    &&& after.groups@.len() == before.groups@.len()
    &&& forall|k: int| 0 <= k < before.groups@.len() && k != g ==> after.groups@[k] == before.groups@[k]
    &&& after.groups@[g].name == before.groups@[g].name
    &&& after.users == before.users
    &&& after.passwords == before.passwords
    &&& after.sessions == before.sessions
    &&& after.activities == before.activities
    &&& after.statuses == before.statuses
}

/// Replaces the member list of group `g`.
fn set_members(db: &mut Store, g: usize, users: Vec<(u64, bool)>)
    requires
        old(db).wf(),
        g < old(db).groups@.len(),
        unique_members(users@),
    ensures
        final(db).wf(),
        only_members_changed(*old(db), *final(db), g as int),
        final(db).groups@[g as int].users@ == users@,
{
    let group = db.groups.remove(g);
    db.groups.insert(g, Group { name: group.name, users });
    assert(db.groups@ =~= old(db).groups@.update(g as int, db.groups@[g as int]));
}

/// Creates a group named `name` whose only member, an admin, is `user_id`; returns its id.
pub fn create(db: &mut Store, user_id: u64, name: String) -> (r: u64)
    requires
        old(db).wf(),
    ensures
        final(db).wf(),
        r == old(db).groups@.len(),
        final(db).groups@.len() == old(db).groups@.len() + 1,
        forall|k: int| 0 <= k < r ==> final(db).groups@[k] == old(db).groups@[k],
        final(db).groups@[r as int].name@ == name@,
        members(final(db).groups@[r as int].users@) == map![user_id => true],
        final(db).users == old(db).users,
        final(db).passwords == old(db).passwords,
        final(db).sessions == old(db).sessions,
        final(db).activities == old(db).activities,
        final(db).statuses == old(db).statuses,
{
    let id = db.groups.len() as u64;
    let mut users: Vec<(u64, bool)> = Vec::new();
    users.push((user_id, true));
    proof {
        lemma_members_push(Seq::empty(), user_id, true);
        assert(users@ =~= Seq::<(u64, bool)>::empty().push((user_id, true)));
        assert(members(Seq::<(u64, bool)>::empty()) =~= Map::<u64, bool>::empty());
        assert(map![user_id => true] =~= Map::<u64, bool>::empty().insert(user_id, true));
    }
    db.groups.push(Group { name, users });
    proof {
        assert forall|k: int| 0 <= k < id implies db.groups@[k] == old(db).groups@[k] by {}
    }
    id
}

/// The groups that `user_id` belongs to, ascending by id.
pub fn list(db: &Store, user_id: u64) -> (r: Vec<(u64, &Group)>)
    requires
        db.wf(),
    ensures
        r@.len() == groups_of(db.groups@, user_id, db.groups@.len() as int).len(),
        forall|k: int| 0 <= k < r@.len() ==> (#[trigger] r@[k]).0 == groups_of(
            db.groups@,
            user_id,
            db.groups@.len() as int,
        )[k] && *r@[k].1 == db.groups@[r@[k].0 as int],
{
    let mut r: Vec<(u64, &Group)> = Vec::new();
    let mut g: usize = 0;
    while g < db.groups.len()
        invariant
            db.wf(),
            g <= db.groups@.len(),
            r@.len() == groups_of(db.groups@, user_id, g as int).len(),
            forall|k: int| 0 <= k < r@.len() ==> (#[trigger] r@[k]).0 == groups_of(
                db.groups@,
                user_id,
                g as int,
            )[k] && r@[k].0 < g && *r@[k].1 == db.groups@[r@[k].0 as int],
        decreases db.groups@.len() - g,
    {
        let ghost before = groups_of(db.groups@, user_id, g as int);
        if find_member(&db.groups[g].users, user_id).is_some() {
            r.push((g as u64, &db.groups[g]));
        }
        g = g + 1;
        assert(groups_of(db.groups@, user_id, g as int) == if role_of(db.groups@[g - 1].users@, user_id) is Some { before.push((g - 1) as u64) } else { before });
    }
    r
}

/// A copy of a member list.
pub fn copy_members(users: &Vec<(u64, bool)>) -> (r: Vec<(u64, bool)>)
    ensures
        r@ == users@,
{
    let mut r: Vec<(u64, bool)> = Vec::new();
    let mut i: usize = 0;
    while i < users.len()
        invariant
            i <= users@.len(),
            r@ == users@.subrange(0, i as int),
        decreases users@.len() - i,
    {
        r.push(users[i]);
        i = i + 1;
    }
    assert(users@.subrange(0, users@.len() as int) =~= users@);
    r
}

/// Adds `params.user_id` to the group as a non-admin member; the acting user must be an
/// admin of the group. A target that is already a member is left as a non-admin member.
pub fn add_user(db: &mut Store, user_id: u64, params: GroupUserParams) -> (r: Result<(), Abort>)
    requires
        old(db).wf(),
    ensures
        final(db).wf(),
        params.group_id >= old(db).groups@.len() ==> r == Err::<(), Abort>(Abort::NotFound),
        params.group_id < old(db).groups@.len() && members(
            old(db).groups@[params.group_id as int].users@,
        ).get(user_id) != Some(true) ==> r == Err::<(), Abort>(Abort::NotAllowed),
        params.group_id < old(db).groups@.len() && members(
            old(db).groups@[params.group_id as int].users@,
        ).get(user_id) == Some(true) ==> r is Ok,
        r is Err ==> *final(db) == *old(db),
        r is Ok ==> only_members_changed(*old(db), *final(db), params.group_id as int)
            && members(final(db).groups@[params.group_id as int].users@) == members(
            old(db).groups@[params.group_id as int].users@,
        ).insert(params.user_id, false),
{
    proof {
        if params.group_id < old(db).groups@.len() {
            lemma_members_get(old(db).groups@[params.group_id as int].users@);
        }
    }
    if params.group_id >= db.groups.len() as u64 {
        return Err(Abort::NotFound);
    }
    let g = params.group_id as usize;
    match find_member(&db.groups[g].users, user_id) {
        Some(i) => {
            if !db.groups[g].users[i].1 {
                return Err(Abort::NotAllowed);
            }
        },
        None => {
            return Err(Abort::NotAllowed);
        },
    }
    let mut users = copy_members(&db.groups[g].users);
    let ghost old_users = users@;
    match find_member(&users, params.user_id) {
        Some(i) => {
            users.set(i, (params.user_id, false));
            proof {
                lemma_members_update(old_users, i as int, false);
            }
        },
        None => {
            users.push((params.user_id, false));
            proof {
                lemma_members_push(old_users, params.user_id, false);
            }
        },
    }
    set_members(db, g, users);
    Ok(())
}

/// Removes `params.user_id` from the group. A member may always remove themselves; an admin
/// may remove any member that is not an admin.
pub fn remove_user(db: &mut Store, user_id: u64, params: GroupUserParams) -> (r: Result<(), Abort>)
    requires
        old(db).wf(),
    ensures
        final(db).wf(),
        params.group_id >= old(db).groups@.len() ==> r == Err::<(), Abort>(Abort::NotFound),
        params.group_id < old(db).groups@.len() ==> {
            let s = old(db).groups@[params.group_id as int].users@;
            &&& members(s).get(params.user_id) is None ==> r == Err::<(), Abort>(Abort::NotFound)
            &&& members(s).get(params.user_id) is Some && user_id != params.user_id && (members(s).get(user_id)
                != Some(true) || members(s).get(params.user_id) == Some(true))
                ==> r == Err::<(), Abort>(Abort::NotAllowed)
            &&& members(s).get(params.user_id) is Some && (user_id == params.user_id || (members(s).get(user_id)
                == Some(true) && members(s).get(params.user_id) == Some(false))) ==> r is Ok
        },
        r is Err ==> *final(db) == *old(db),
        r is Ok ==> only_members_changed(*old(db), *final(db), params.group_id as int)
            && members(final(db).groups@[params.group_id as int].users@) == members(
            old(db).groups@[params.group_id as int].users@,
        ).remove(params.user_id),
{
    proof {
        if params.group_id < old(db).groups@.len() {
            lemma_members_get(old(db).groups@[params.group_id as int].users@);
        }
    }
    if params.group_id >= db.groups.len() as u64 {
        return Err(Abort::NotFound);
    }
    let g = params.group_id as usize;
    let target = match find_member(&db.groups[g].users, params.user_id) {
        Some(i) => i,
        None => {
            return Err(Abort::NotFound);
        },
    };
    if user_id != params.user_id {
        let acting_admin = match find_member(&db.groups[g].users, user_id) {
            Some(i) => db.groups[g].users[i].1,
            None => false,
        };
        if !acting_admin || db.groups[g].users[target].1 {
            return Err(Abort::NotAllowed);
        }
    }
    let mut users = copy_members(&db.groups[g].users);
    let ghost old_users = users@;
    users.remove(target);
    proof {
        lemma_members_remove(old_users, target as int);
    }
    set_members(db, g, users);
    Ok(())
}

/// Makes `params.user_id`, already a member, an admin of the group; the acting user must be
/// an admin of it.
pub fn make_admin(db: &mut Store, user_id: u64, params: GroupUserParams) -> (r: Result<(), Abort>)
    requires
        old(db).wf(),
    ensures
        final(db).wf(),
        params.group_id >= old(db).groups@.len() ==> r == Err::<(), Abort>(Abort::NotFound),
        params.group_id < old(db).groups@.len() ==> {
            let s = old(db).groups@[params.group_id as int].users@;
            &&& members(s).get(user_id) is None ==> r == Err::<(), Abort>(Abort::NotFound)
            &&& members(s).get(user_id) == Some(false) ==> r == Err::<(), Abort>(Abort::NotAllowed)
            &&& members(s).get(user_id) == Some(true) && members(s).get(params.user_id) is None
                ==> r == Err::<(), Abort>(Abort::NotFound)
            &&& members(s).get(user_id) == Some(true) && members(s).get(params.user_id) is Some ==> r is Ok
        },
        r is Err ==> *final(db) == *old(db),
        r is Ok ==> only_members_changed(*old(db), *final(db), params.group_id as int)
            && members(final(db).groups@[params.group_id as int].users@) == members(
            old(db).groups@[params.group_id as int].users@,
        ).insert(params.user_id, true),
{
    proof {
        if params.group_id < old(db).groups@.len() {
            lemma_members_get(old(db).groups@[params.group_id as int].users@);
        }
    }
    if params.group_id >= db.groups.len() as u64 {
        return Err(Abort::NotFound);
    }
    let g = params.group_id as usize;
    match find_member(&db.groups[g].users, user_id) {
        Some(i) => {
            if !db.groups[g].users[i].1 {
                return Err(Abort::NotAllowed);
            }
        },
        None => {
            return Err(Abort::NotFound);
        },
    }
    let target = match find_member(&db.groups[g].users, params.user_id) {
        Some(i) => i,
        None => {
            return Err(Abort::NotFound);
        },
    };
    let mut users = copy_members(&db.groups[g].users);
    let ghost old_users = users@;
    users.set(target, (params.user_id, true));
    proof {
        lemma_members_update(old_users, target as int, true);
    }
    set_members(db, g, users);
    Ok(())
}

} // verus!
