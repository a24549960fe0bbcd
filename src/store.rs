use vstd::prelude::*;
use crate::activity::{count_status, Activity, ParticipantStatus, Status};
use crate::block::sorted_disjoint;
use crate::group::Group;
use crate::session::unique_tokens;
use crate::user::User;

verus! {

/// The collections of the system, held together so that an operation can read and change
/// several of them at once. Users, groups and activities are identified by their position,
/// so an id is handed out once and never reused.
///
/// Every operation takes the store as a whole: it either makes all of its changes or, when
/// it refuses, none of them. `new` builds a well-formed store and every operation keeps it
/// well formed.
pub struct Store {
    pub users: Vec<User>,
    /// The password hash of each user, by user id.
    pub passwords: Vec<String>,
    /// Session tokens and the user each one authenticates.
    pub sessions: Vec<(String, u64)>,
    pub groups: Vec<Group>,
    pub activities: Vec<Activity>,
    /// One row per (member, activity) pair, created with the activity.
    pub statuses: Vec<ParticipantStatus>,
}

impl Store {
    /// Each user's blocks are sorted and pairwise disjoint; usernames are unique.
    pub open spec fn users_wf(&self) -> bool {
        &&& self.users@.len() == self.passwords@.len()
        &&& forall|i: int| 0 <= i < self.users@.len() ==> sorted_disjoint((#[trigger] self.users@[i]).blocks@)
        &&& forall|i: int, j: int| 0 <= i < self.users@.len() && 0 <= j < self.users@.len() && i != j
            ==> (#[trigger] self.users@[i]).username@ != (#[trigger] self.users@[j]).username@
    }

    /// No user id occurs twice in a group.
    pub open spec fn groups_wf(&self) -> bool {
        forall|g: int| 0 <= g < self.groups@.len() ==> (#[trigger] self.groups@[g]).wf()
    }

    /// Every status row names a stored activity, no (user, activity) pair has two rows,
    /// and each header's counters equal the number of its rows in that state.
    pub open spec fn activities_wf(&self) -> bool {
        &&& forall|k: int| 0 <= k < self.statuses@.len() ==> (#[trigger] self.statuses@[k]).activity_id < self.activities@.len()
        &&& forall|k: int, l: int| 0 <= k < self.statuses@.len() && 0 <= l < self.statuses@.len() && k != l
            ==> !((#[trigger] self.statuses@[k]).user_id == (#[trigger] self.statuses@[l]).user_id
                && self.statuses@[k].activity_id == self.statuses@[l].activity_id)
        &&& forall|a: int| 0 <= a < self.activities@.len() ==> {
            &&& (#[trigger] self.activities@[a]).pending == count_status(self.statuses@, a as u64, Status::Pending)
            &&& self.activities@[a].accepted == count_status(self.statuses@, a as u64, Status::Accepted)
        }
    }

    pub open spec fn wf(&self) -> bool {
        &&& self.users_wf()
        &&& unique_tokens(self.sessions@)
        &&& self.groups_wf()
        &&& self.activities_wf()
    }

    /// An empty store.
    pub fn new() -> (r: Store)
        ensures
            r.wf(),
            r.users@.len() == 0,
            r.passwords@.len() == 0,
            r.sessions@.len() == 0,
            r.groups@.len() == 0,
            r.activities@.len() == 0,
            r.statuses@.len() == 0,
    {
        Store {
            users: Vec::new(),
            passwords: Vec::new(),
            sessions: Vec::new(),
            groups: Vec::new(),
            activities: Vec::new(),
            statuses: Vec::new(),
        }
    }
}

} // verus!
