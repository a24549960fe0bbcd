use vstd::prelude::*;
use crate::block::{insertion_point, overlaps_any, overlaps_neighbour, Block};
use crate::group::{copy_members, find_member, lemma_members_get, members};
use crate::store::Store;
use crate::user::User;
use crate::util::Abort;

verus! {

/// An activity header: the proposal and its running participation counters.
#[derive(Debug)]
pub struct Activity {
    pub group_id: u64,
    pub block: Block,
    pub description: String,
    pub min_participants: u32,
    pub max_participants: u32,
    pub accepted: u64,
    pub pending: u64,
}

/// Where a member stands on an activity.
#[derive(Clone, Copy, Debug, PartialEq, Eq, Structural)]
pub enum Status {
    Pending,
    Accepted,
    Denied,
}

/// One member's status on one activity.
#[derive(Clone, Copy, Debug, PartialEq, Eq, Structural)]
pub struct ParticipantStatus {
    pub user_id: u64,
    pub activity_id: u64,
    pub status: Status,
}

/// Number of rows of activity `a` whose status is `s`.
pub open spec fn count_status(rows: Seq<ParticipantStatus>, a: u64, s: Status) -> nat
    decreases rows.len(),
{
    if rows.len() == 0 {
        0
    } else {
        count_status(rows.drop_last(), a, s) + if rows.last().activity_id == a && rows.last().status
            == s {
            1nat
        } else {
            0nat
        }
    }
}

/// A client's request to set its status on an activity.
#[derive(Clone, Copy, Debug, PartialEq, Eq, Structural)]
pub struct StatusChange {
    pub activity_id: u64,
    pub status: Status,
}

/// An activity as one participant sees it: the header and that participant's status.
#[derive(Debug)]
pub struct ActivityStats {
    pub activity: Activity,
    pub status: Status,
}

impl Activity {
    /// A proposal for a group, with both counters at zero.
    pub fn new(
        group_id: u64,
        block: Block,
        description: String,
        min_participants: u32,
        max_participants: u32,
    ) -> (r: Activity)
        ensures
            r.group_id == group_id,
            r.block == block,
            r.description == description,
            r.min_participants == min_participants,
            r.max_participants == max_participants,
            r.accepted == 0,
            r.pending == 0,
    {
        Activity {
            group_id,
            block,
            description,
            min_participants,
            max_participants,
            accepted: 0,
            pending: 0,
        }
    }

    /// A field-by-field copy.
    pub fn duplicate(&self) -> (r: Activity)
        ensures
            r == *self,
    {
        Activity {
            group_id: self.group_id,
            block: self.block,
            description: self.description.clone(),
            min_participants: self.min_participants,
            max_participants: self.max_participants,
            accepted: self.accepted,
            pending: self.pending,
        }
    }
}

/// Number of rows of activity `a` whose status is not `Denied`.
pub open spec fn count_active(rows: Seq<ParticipantStatus>, a: u64) -> nat
    decreases rows.len(),
{
    if rows.len() == 0 {
        0
    } else {
        count_active(rows.drop_last(), a) + if rows.last().activity_id == a && rows.last().status
            != Status::Denied {
            1nat
        } else {
            0nat
        }
    }
}

/// The stored blocks of user `u`; none for an id that names no user.
pub open spec fn blocks_of(users: Seq<User>, u: u64) -> Seq<Block> {
    if u < users.len() {
        users[u as int].blocks@
    } else {
        Seq::empty()
    }
}

/// A member starts out denied when one of their blocks overlaps the window, pending otherwise.
pub open spec fn initial_status(users: Seq<User>, u: u64, window: Block) -> Status {
    if overlaps_any(blocks_of(users, u), window) {
        Status::Denied
    } else {
        Status::Pending
    }
}

/// One status row per member, in member order, for activity `a` over `window`.
pub open spec fn invitations(
    members: Seq<(u64, bool)>,
    users: Seq<User>,
    a: u64,
    window: Block,
) -> Seq<ParticipantStatus> {
    members.map_values(
        |m: (u64, bool)|
            ParticipantStatus {
                user_id: m.0,
                activity_id: a,
                status: initial_status(users, m.0, window),
            },
    )
}

/// The status of user `u` on activity `a`, if they were invited.
pub open spec fn status_of(rows: Seq<ParticipantStatus>, u: u64, a: u64) -> Option<Status> {
    if exists|k: int|
        0 <= k < rows.len() && (#[trigger] rows[k]).user_id == u && rows[k].activity_id == a {
        let k = choose|k: int|
            0 <= k < rows.len() && (#[trigger] rows[k]).user_id == u && rows[k].activity_id == a;
        Some(rows[k].status)
    } else {
        None
    }
}

/// The counters `(pending, accepted)` after one participant moves from `from` to `to`.
pub open spec fn counters_after(pending: int, accepted: int, from: Status, to: Status) -> (int, int) {
    if from == to {
        (pending, accepted)
    } else {
        let p = pending - (if from == Status::Pending { 1int } else { 0 })
            + (if to == Status::Pending { 1int } else { 0 });
        let a = accepted - (if from == Status::Accepted { 1int } else { 0 })
            + (if to == Status::Accepted { 1int } else { 0 });
        (p, a)
    }
}

/// `after` is `before` with the status of `user_id` on `change.activity_id` set to
/// `change.status` and that activity's counters moved accordingly; nothing else differs.
pub open spec fn status_changed(before: Store, after: Store, user_id: u64, change: StatusChange) -> bool {
    let a = change.activity_id as int;
    let from = status_of(before.statuses@, user_id, change.activity_id);
    &&& from is Some
    &&& a < before.activities@.len()
    &&& status_of(after.statuses@, user_id, change.activity_id) == Some(change.status)
    &&& forall|u: u64, b: u64| !(u == user_id && b == change.activity_id) ==> status_of(after.statuses@, u, b)
        == status_of(before.statuses@, u, b)
    &&& after.statuses@.len() == before.statuses@.len()
    &&& after.activities@.len() == before.activities@.len()
    &&& forall|k: int| 0 <= k < before.activities@.len() && k != a ==> after.activities@[k] == before.activities@[k]
    &&& (after.activities@[a].pending as int, after.activities@[a].accepted as int) == counters_after(
        before.activities@[a].pending as int,
        before.activities@[a].accepted as int,
        from->0,
        change.status,
    )
    &&& after.activities@[a].group_id == before.activities@[a].group_id
    &&& after.activities@[a].block == before.activities@[a].block
    &&& after.activities@[a].description == before.activities@[a].description
    &&& after.activities@[a].min_participants == before.activities@[a].min_participants
    &&& after.activities@[a].max_participants == before.activities@[a].max_participants
    &&& after.users == before.users
    &&& after.passwords == before.passwords
    &&& after.sessions == before.sessions
    &&& after.groups == before.groups
}

/// Counting over a concatenation adds the counts of the parts.
pub proof fn lemma_count_append(s1: Seq<ParticipantStatus>, s2: Seq<ParticipantStatus>, a: u64, st: Status)
    ensures
        count_status(s1 + s2, a, st) == count_status(s1, a, st) + count_status(s2, a, st),
        count_active(s1 + s2, a) == count_active(s1, a) + count_active(s2, a),
    decreases s2.len(),
{
    if s2.len() == 0 {
        assert(s1 + s2 =~= s1);
    } else {
        assert((s1 + s2).drop_last() =~= s1 + s2.drop_last());
        lemma_count_append(s1, s2.drop_last(), a, st);
    }
}

/// Rows of other activities count for nothing.
pub proof fn lemma_count_absent(s: Seq<ParticipantStatus>, a: u64, st: Status)
    requires
        forall|k: int| 0 <= k < s.len() ==> (#[trigger] s[k]).activity_id != a,
    ensures
        count_status(s, a, st) == 0,
        count_active(s, a) == 0,
    decreases s.len(),
{
    if s.len() > 0 {
        lemma_count_absent(s.drop_last(), a, st);
    }
}

/// A count never exceeds the number of rows.
pub proof fn lemma_count_bound(s: Seq<ParticipantStatus>, a: u64, st: Status)
    ensures
        count_status(s, a, st) <= s.len(),
    decreases s.len(),
{
    if s.len() > 0 {
        lemma_count_bound(s.drop_last(), a, st);
    }
}

/// Pending and accepted rows together are the rows that are not denied.
pub proof fn lemma_count_split(s: Seq<ParticipantStatus>, a: u64)
    ensures
        count_status(s, a, Status::Pending) + count_status(s, a, Status::Accepted) == count_active(s, a),
    decreases s.len(),
{
    if s.len() > 0 {
        lemma_count_split(s.drop_last(), a);
    }
}

/// Changing the status of one row moves the counts of its activity by one at most.
pub proof fn lemma_count_update(s: Seq<ParticipantStatus>, i: int, st: Status, a: u64, c: Status)
    requires
        0 <= i < s.len(),
    ensures
        count_status(s.update(i, ParticipantStatus { status: st, ..s[i] }), a, c) + (if s[i].activity_id
            == a && s[i].status == c {
            1int
        } else {
            0
        }) == count_status(s, a, c) + (if s[i].activity_id == a && st == c {
            1int
        } else {
            0
        }),
    decreases s.len(),
{
    let t = s.update(i, ParticipantStatus { status: st, ..s[i] });
    if i == s.len() - 1 {
        assert(t.drop_last() =~= s.drop_last());
    } else {
        assert(t.drop_last() =~= s.drop_last().update(i, ParticipantStatus { status: st, ..s[i] }));
        lemma_count_update(s.drop_last(), i, st, a, c);
    }
}

/// Where no (user, activity) pair has two rows, `status_of` reads the status of the row
/// that has the pair.
pub proof fn lemma_status_at(rows: Seq<ParticipantStatus>, k: int)
    requires
        0 <= k < rows.len(),
        forall|x: int, y: int| 0 <= x < rows.len() && 0 <= y < rows.len() && x != y
            ==> !((#[trigger] rows[x]).user_id == (#[trigger] rows[y]).user_id
                && rows[x].activity_id == rows[y].activity_id),
    ensures
        status_of(rows, rows[k].user_id, rows[k].activity_id) == Some(rows[k].status),
{
    let u = rows[k].user_id;
    let a = rows[k].activity_id;
    let j = choose|j: int| 0 <= j < rows.len() && (#[trigger] rows[j]).user_id == u && rows[j].activity_id == a;
    assert(rows[j].user_id == u);
}

/// Whether user `u`'s stored blocks overlap `window`.
fn is_busy(db: &Store, u: u64, window: &Block) -> (r: bool)
    requires
        db.wf(),
        window.wf(),
    ensures
        r == overlaps_any(blocks_of(db.users@, u), *window),
{
    if u < db.users.len() as u64 {
        let blocks = &db.users[u as usize].blocks;
        let pos = insertion_point(blocks, window);
        overlaps_neighbour(blocks, window, pos)
    } else {
        false
    }
}

/// Proposes an activity to a group of which `user_id` is a member. Every member of the group
/// gets a status row: denied where their blocks overlap the activity's window, pending
/// otherwise. The header is stored with `pending` equal to the number of pending rows and
/// `accepted` zero; the counters of `activity` are ignored. Returns the new activity's id.
pub fn create(db: &mut Store, user_id: u64, activity: Activity) -> (r: Result<u64, Abort>)
    requires
        old(db).wf(),
    ensures
        final(db).wf(),
        !activity.block.wf() ==> r == Err::<u64, Abort>(Abort::Malformed),
        activity.block.wf() && activity.group_id >= old(db).groups@.len()
            ==> r == Err::<u64, Abort>(Abort::NotFound),
        activity.block.wf() && activity.group_id < old(db).groups@.len() && members(
            old(db).groups@[activity.group_id as int].users@,
        ).get(user_id) is None ==> r == Err::<u64, Abort>(Abort::NotFound),
        activity.block.wf() && activity.group_id < old(db).groups@.len() && members(
            old(db).groups@[activity.group_id as int].users@,
        ).get(user_id) is Some ==> r is Ok,
        r is Err ==> *final(db) == *old(db),
        r matches Ok(id) ==> {
            let members = old(db).groups@[activity.group_id as int].users@;
            let rows = invitations(members, old(db).users@, id, activity.block);
            &&& id == old(db).activities@.len()
            &&& final(db).statuses@ == old(db).statuses@ + rows
            &&& rows.len() == members.len()
            &&& final(db).activities@.len() == old(db).activities@.len() + 1
            &&& forall|k: int| 0 <= k < id ==> final(db).activities@[k] == old(db).activities@[k]
            &&& final(db).activities@[id as int].group_id == activity.group_id
            &&& final(db).activities@[id as int].block == activity.block
            &&& final(db).activities@[id as int].description == activity.description
            &&& final(db).activities@[id as int].min_participants == activity.min_participants
            &&& final(db).activities@[id as int].max_participants == activity.max_participants
            &&& final(db).activities@[id as int].accepted == 0
            &&& final(db).activities@[id as int].pending == count_status(rows, id, Status::Pending)
            &&& final(db).activities@[id as int].pending + final(db).activities@[id as int].accepted
                == count_active(rows, id)
            &&& final(db).users == old(db).users
            &&& final(db).passwords == old(db).passwords
            &&& final(db).sessions == old(db).sessions
            &&& final(db).groups == old(db).groups
        },
{
    proof {
        if activity.group_id < old(db).groups@.len() {
            lemma_members_get(old(db).groups@[activity.group_id as int].users@);
        }
    }
    if !(activity.block.start < activity.block.end) {
        return Err(Abort::Malformed);
    }
    if activity.group_id >= db.groups.len() as u64 {
        return Err(Abort::NotFound);
    }
    let g = activity.group_id as usize;
    if find_member(&db.groups[g].users, user_id).is_none() {
        return Err(Abort::NotFound);
    }
    let members = copy_members(&db.groups[g].users);
    let id = db.activities.len() as u64;
    let ghost users = db.users@;
    let mut rows: Vec<ParticipantStatus> = Vec::new();
    let mut pending: u64 = 0;
    let mut i: usize = 0;
    while i < members.len()
        invariant
            db.wf(),
            *db == *old(db),
            users == db.users@,
            members@ == db.groups@[g as int].users@,
            activity.block.wf(),
            id == db.activities@.len(),
            i <= members@.len(),
            rows@ == invitations(members@.subrange(0, i as int), users, id, activity.block),
            pending == count_status(rows@, id, Status::Pending),
            count_status(rows@, id, Status::Accepted) == 0,
            count_active(rows@, id) == pending,
        decreases members@.len() - i,
    {
        let u = members[i].0;
        let status = if is_busy(db, u, &activity.block) { Status::Denied } else { Status::Pending };
        let ghost before = rows@;
        rows.push(ParticipantStatus { user_id: u, activity_id: id, status });
        proof {
            assert(rows@.drop_last() == before);
            assert(members@.subrange(0, i + 1).drop_last() =~= members@.subrange(0, i as int));
            assert(rows@ =~= invitations(members@.subrange(0, i + 1), users, id, activity.block));
            lemma_count_bound(before, id, Status::Pending);
        }
        if status == Status::Pending {
            pending = pending + 1;
        }
        i = i + 1;
    }
    proof {
        assert(members@.subrange(0, members@.len() as int) =~= members@);
        lemma_count_split(rows@, id);
    }
    let header = Activity {
        group_id: activity.group_id,
        block: activity.block,
        description: activity.description,
        min_participants: activity.min_participants,
        max_participants: activity.max_participants,
        accepted: 0,
        pending,
    };
    let ghost old_rows = db.statuses@;
    let ghost new_rows = rows@;
    db.activities.push(header);
    db.statuses.append(&mut rows);
    proof {
        let all = db.statuses@;
        assert(all =~= old_rows + new_rows);
        assert forall|k: int| 0 <= k < all.len() implies (#[trigger] all[k]).activity_id < db.activities@.len() by {
            if k >= old_rows.len() {
                assert(all[k] == new_rows[k - old_rows.len()]);
            }
        }
        assert forall|x: int, y: int| 0 <= x < all.len() && 0 <= y < all.len() && x != y
            implies !((#[trigger] all[x]).user_id == (#[trigger] all[y]).user_id
                && all[x].activity_id == all[y].activity_id) by {
            if x >= old_rows.len() && y >= old_rows.len() {
                assert(all[x] == new_rows[x - old_rows.len()]);
                assert(all[y] == new_rows[y - old_rows.len()]);
                assert(members@[x - old_rows.len()].0 != members@[y - old_rows.len()].0);
            } else if x >= old_rows.len() {
                assert(all[x] == new_rows[x - old_rows.len()]);
                assert(all[y] == old_rows[y]);
            } else if y >= old_rows.len() {
                assert(all[y] == new_rows[y - old_rows.len()]);
                assert(all[x] == old_rows[x]);
            } else {
                assert(all[x] == old_rows[x] && all[y] == old_rows[y]);
            }
        }
        assert forall|k: int| 0 <= k < new_rows.len() implies (#[trigger] new_rows[k]).activity_id == id by {}
        assert forall|a: int| 0 <= a < db.activities@.len() implies {
            &&& (#[trigger] db.activities@[a]).pending == count_status(all, a as u64, Status::Pending)
            &&& db.activities@[a].accepted == count_status(all, a as u64, Status::Accepted)
        } by {
            lemma_count_append(old_rows, new_rows, a as u64, Status::Pending);
            lemma_count_append(old_rows, new_rows, a as u64, Status::Accepted);
            if a < id {
                assert(db.activities@[a] == old(db).activities@[a]);
                lemma_count_absent(new_rows, a as u64, Status::Pending);
                lemma_count_absent(new_rows, a as u64, Status::Accepted);
            } else {
                lemma_count_absent(old_rows, a as u64, Status::Pending);
                lemma_count_absent(old_rows, a as u64, Status::Accepted);
            }
        }
    }
    Ok(id)
}

/// The status rows among the first `n` that belong to user `u`, in stored order.
pub open spec fn rows_of(rows: Seq<ParticipantStatus>, u: u64, n: int) -> Seq<ParticipantStatus>
    decreases n,
{
    if n <= 0 {
        Seq::empty()
    } else if rows[n - 1].user_id == u {
        rows_of(rows, u, n - 1).push(rows[n - 1])
    } else {
        rows_of(rows, u, n - 1)
    }
}

/// Every activity `user_id` was invited to, with its header and the user's status, in the
/// order the status rows are stored.
pub fn list(db: &Store, user_id: u64) -> (r: Vec<(u64, ActivityStats)>)
    requires
        db.wf(),
    ensures
        r@.len() == rows_of(db.statuses@, user_id, db.statuses@.len() as int).len(),
        forall|k: int| 0 <= k < r@.len() ==> {
            let row = #[trigger] rows_of(db.statuses@, user_id, db.statuses@.len() as int)[k];
            &&& r@[k].0 == row.activity_id
            &&& r@[k].1.status == row.status
            &&& r@[k].1.activity == db.activities@[row.activity_id as int]
        },
{
    let mut r: Vec<(u64, ActivityStats)> = Vec::new();
    let mut i: usize = 0;
    while i < db.statuses.len()
        invariant
            db.wf(),
            i <= db.statuses@.len(),
            r@.len() == rows_of(db.statuses@, user_id, i as int).len(),
            forall|k: int| 0 <= k < r@.len() ==> {
                let row = #[trigger] rows_of(db.statuses@, user_id, i as int)[k];
                &&& r@[k].0 == row.activity_id
                &&& r@[k].1.status == row.status
                &&& r@[k].1.activity == db.activities@[row.activity_id as int]
            },
        decreases db.statuses@.len() - i,
    {
        let row = db.statuses[i];
        let ghost before = rows_of(db.statuses@, user_id, i as int);
        let n_activities = db.activities.len();
        assert(row.activity_id < n_activities);
        if row.user_id == user_id {
            let activity = db.activities[row.activity_id as usize].duplicate();
            r.push((row.activity_id, ActivityStats { activity, status: row.status }));
        }
        i = i + 1;
        proof {
            let after = rows_of(db.statuses@, user_id, i as int);
            if row.user_id == user_id {
                assert(after == before.push(row));
                assert forall|k: int| 0 <= k < r@.len() implies {
                    let row2 = #[trigger] rows_of(db.statuses@, user_id, i as int)[k];
                    &&& r@[k].0 == row2.activity_id
                    &&& r@[k].1.status == row2.status
                    &&& r@[k].1.activity == db.activities@[row2.activity_id as int]
                } by {
                    if k < before.len() {
                        assert(after[k] == before[k]);
                    }
                }
            } else {
                assert(after == before);
            }
        }
    }
    r
}

/// The position of the row of user `u` on activity `a`.
fn find_row(rows: &Vec<ParticipantStatus>, u: u64, a: u64) -> (r: Option<usize>)
    ensures
        match r {
            Some(k) => k < rows@.len() && rows@[k as int].user_id == u && rows@[k as int].activity_id == a,
            None => forall|k: int| 0 <= k < rows@.len() ==> !((#[trigger] rows@[k]).user_id == u && rows@[k].activity_id == a),
        },
{
    let mut k: usize = 0;
    while k < rows.len()
        invariant
            k <= rows@.len(),
            forall|j: int| 0 <= j < k ==> !((#[trigger] rows@[j]).user_id == u && rows@[j].activity_id == a),
        decreases rows@.len() - k,
    {
        if rows[k].user_id == u && rows[k].activity_id == a {
            return Some(k);
        }
        k = k + 1;
    }
    None
}

/// Sets the status of `user_id` on `change.activity_id`. Only an invited member may do so.
/// When the status differs from the stored one, the counter of the old status (if it has
/// one) goes down and the counter of the new status (if it has one) goes up.
pub fn change_status(db: &mut Store, user_id: u64, change: StatusChange) -> (r: Result<(), Abort>)
    requires
        old(db).wf(),
    ensures
        final(db).wf(),
        status_of(old(db).statuses@, user_id, change.activity_id) is None ==> r == Err::<(), Abort>(Abort::NotAllowed),
        status_of(old(db).statuses@, user_id, change.activity_id) is Some ==> r is Ok,
        r is Err ==> *final(db) == *old(db),
        r is Ok ==> status_changed(*old(db), *final(db), user_id, change),
{
    let k = match find_row(&db.statuses, user_id, change.activity_id) {
        Some(k) => k,
        None => {
            return Err(Abort::NotAllowed);
        },
    };
    let ghost s = db.statuses@;
    proof {
        lemma_status_at(s, k as int);
    }
    let row = db.statuses[k];
    let n_activities = db.activities.len();
    assert(row.activity_id < n_activities);
    let a = row.activity_id as usize;
    assert(db.activities@[a as int].pending == count_status(s, change.activity_id, Status::Pending));
    if row.status == change.status {
        proof {
            assert(db.activities@.len() == old(db).activities@.len());
        }
        return Ok(());
    }
    let n = db.statuses.len();
    let new_row = ParticipantStatus { user_id, activity_id: change.activity_id, status: change.status };
    db.statuses.set(k, new_row);
    let ghost t = db.statuses@;
    proof {
        assert(t == s.update(k as int, ParticipantStatus { status: change.status, ..s[k as int] }));
        lemma_count_update(s, k as int, change.status, change.activity_id, Status::Pending);
        lemma_count_update(s, k as int, change.status, change.activity_id, Status::Accepted);
        lemma_count_bound(t, change.activity_id, Status::Pending);
        lemma_count_bound(t, change.activity_id, Status::Accepted);
    }
    let header = db.activities.remove(a);
    let mut pending = header.pending;
    let mut accepted = header.accepted;
    if row.status == Status::Pending {
        pending = pending - 1;
    } else if row.status == Status::Accepted {
        accepted = accepted - 1;
    }
    if change.status == Status::Pending {
        pending = pending + 1;
    } else if change.status == Status::Accepted {
        accepted = accepted + 1;
    }
    db.activities.insert(a, Activity {
        group_id: header.group_id,
        block: header.block,
        description: header.description,
        min_participants: header.min_participants,
        max_participants: header.max_participants,
        accepted,
        pending,
    });
    proof {
        assert forall|x: int, y: int| 0 <= x < t.len() && 0 <= y < t.len() && x != y
            implies !((#[trigger] t[x]).user_id == (#[trigger] t[y]).user_id
                && t[x].activity_id == t[y].activity_id) by {
            assert(t[x].user_id == s[x].user_id && t[x].activity_id == s[x].activity_id);
            assert(t[y].user_id == s[y].user_id && t[y].activity_id == s[y].activity_id);
        }
        assert forall|j: int| 0 <= j < t.len() implies (#[trigger] t[j]).activity_id < db.activities@.len() by {
            assert(t[j].activity_id == s[j].activity_id);
        }
        assert forall|b: int| 0 <= b < db.activities@.len() implies {
            &&& (#[trigger] db.activities@[b]).pending == count_status(t, b as u64, Status::Pending)
            &&& db.activities@[b].accepted == count_status(t, b as u64, Status::Accepted)
        } by {
            lemma_count_update(s, k as int, change.status, b as u64, Status::Pending);
            lemma_count_update(s, k as int, change.status, b as u64, Status::Accepted);
            if b != a {
                assert(db.activities@[b] == old(db).activities@[b]);
            }
        }
        lemma_status_at(t, k as int);
        assert forall|u: u64, b: u64| !(u == user_id && b == change.activity_id) implies status_of(t, u, b)
            == status_of(s, u, b) by {
            if exists|j: int| 0 <= j < t.len() && (#[trigger] t[j]).user_id == u && t[j].activity_id == b {
                let j = choose|j: int| 0 <= j < t.len() && (#[trigger] t[j]).user_id == u && t[j].activity_id == b;
                assert(t[j] == s[j]);
                lemma_status_at(t, j);
                lemma_status_at(s, j);
            } else {
                assert forall|j: int| 0 <= j < s.len() implies !((#[trigger] s[j]).user_id == u && s[j].activity_id == b) by {
                    if j != k {
                        assert(t[j] == s[j]);
                    }
                }
            }
        }
        assert forall|j: int| 0 <= j < old(db).activities@.len() && j != a implies db.activities@[j] == old(db).activities@[j] by {}
    }
    Ok(())
}

/// Setting the same status twice leaves the activities exactly as setting it once did.
pub proof fn lemma_change_status_idempotent(d0: Store, d1: Store, d2: Store, user_id: u64, change: StatusChange)
    requires
        status_changed(d0, d1, user_id, change),
        status_changed(d1, d2, user_id, change),
    ensures
        d2.activities@[change.activity_id as int].pending == d1.activities@[change.activity_id as int].pending,
        d2.activities@[change.activity_id as int].accepted == d1.activities@[change.activity_id as int].accepted,
        d2.activities@ == d1.activities@,
{
    assert(d2.activities@ =~= d1.activities@);
}

/// A pending participant who accepts and then returns to pending, having first restated
/// pending, leaves the activity's counters where they started.
pub proof fn lemma_status_round_trip(d0: Store, d1: Store, d2: Store, d3: Store, user_id: u64, activity_id: u64)
    requires
        status_of(d0.statuses@, user_id, activity_id) == Some(Status::Pending),
        status_changed(d0, d1, user_id, StatusChange { activity_id, status: Status::Pending }),
        status_changed(d1, d2, user_id, StatusChange { activity_id, status: Status::Accepted }),
        status_changed(d2, d3, user_id, StatusChange { activity_id, status: Status::Pending }),
    ensures
        d3.activities@[activity_id as int].pending == d0.activities@[activity_id as int].pending,
        d3.activities@[activity_id as int].accepted == d0.activities@[activity_id as int].accepted,
{
}

} // verus!
