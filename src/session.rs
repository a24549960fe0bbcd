use vstd::prelude::*;
use rand::RngCore;
use crate::store::Store;
use crate::util::Error;

verus! {

/// A login session, identified by its token.
#[derive(Debug)]
pub struct Session {
    pub token: String,
}

/// Number of random bytes behind a session token.
pub const TOKEN_BYTES: usize = 16;

/// No token occurs twice.
pub open spec fn unique_tokens(s: Seq<(String, u64)>) -> bool {
    forall|i: int, j: int| 0 <= i < s.len() && 0 <= j < s.len() && i != j ==> (#[trigger] s[i]).0@ != (#[trigger] s[j]).0@
}

/// The user that token `t` authenticates, if any.
pub open spec fn session_user(s: Seq<(String, u64)>, t: Seq<char>) -> Option<u64> {
    if exists|i: int| 0 <= i < s.len() && (#[trigger] s[i]).0@ == t {
        Some(s[choose|i: int| 0 <= i < s.len() && (#[trigger] s[i]).0@ == t].1)
    } else {
        None
    }
}

/// Lower-case hexadecimal digit of a value below sixteen.
pub open spec fn hex_char(n: int) -> char {
    "0123456789abcdef"@[n]
}

/// Two lower-case hexadecimal digits per byte, high digit first.
pub open spec fn hex_of(b: Seq<u8>) -> Seq<char>
    decreases b.len(),
{
    if b.len() == 0 {
        Seq::empty()
    } else {
        hex_of(b.drop_last()) + seq![hex_char(b.last() as int / 16), hex_char(b.last() as int % 16)]
    }
}

/// Hexadecimal text has two digits per byte.
pub proof fn lemma_hex_len(b: Seq<u8>)
    ensures
        hex_of(b).len() == 2 * b.len(),
    decreases b.len(),
{
    if b.len() > 0 {
        lemma_hex_len(b.drop_last());
    }
}

/// Where no token repeats, `session_user` reads the user of the entry with the token.
pub proof fn lemma_session_at(s: Seq<(String, u64)>, i: int)
    requires
        unique_tokens(s),
        0 <= i < s.len(),
    ensures
        session_user(s, s[i].0@) == Some(s[i].1),
{
    let t = s[i].0@;
    let j = choose|j: int| 0 <= j < s.len() && (#[trigger] s[j]).0@ == t;
    assert(s[j].0@ == t);
}

/// Relies on rand's OsRng and RngCore::try_fill_bytes: `len` bytes from the operating
/// system's generator, or `None` when that generator fails.
#[verifier::external_body]
fn random_bytes(len: usize) -> (r: Option<Vec<u8>>)
    ensures
        r matches Some(bytes) ==> bytes@.len() == len,
{
    let mut bytes = vec![0u8; len];
    rand::rngs::OsRng.try_fill_bytes(&mut bytes).ok().map(|_| bytes)
}

/// Encodes bytes as lower-case hexadecimal, two digits per byte.
pub fn to_hex(bytes: &Vec<u8>) -> (r: String)
    ensures
        r@ == hex_of(bytes@),
{
    let digits = "0123456789abcdef";
    proof {
        reveal_strlit("0123456789abcdef");
    }
    assert(digits.is_ascii());
    let mut out = String::new();
    let mut i: usize = 0;
    while i < bytes.len()
        invariant
            i <= bytes@.len(),
            digits@ == "0123456789abcdef"@,
            digits.is_ascii(),
            digits@.len() == 16,
            out@ == hex_of(bytes@.subrange(0, i as int)),
        decreases bytes@.len() - i,
    {
        let b = bytes[i];
        let hi = (b / 16) as usize;
        let lo = (b % 16) as usize;
        out.append(digits.substring_ascii(hi, hi + 1));
        out.append(digits.substring_ascii(lo, lo + 1));
        proof {
            let p = bytes@.subrange(0, i + 1);
            assert(p.drop_last() =~= bytes@.subrange(0, i as int));
            assert(p.last() == b);
        }
        i = i + 1;
    }
    assert(bytes@.subrange(0, bytes@.len() as int) =~= bytes@);
    out
}

impl Session {
    /// Opens a session for `user_id` under a fresh random token; fails, changing nothing,
    /// only when the system's random generator does.
    pub fn new(db: &mut Store, user_id: u64) -> (r: Result<Session, Error>)
        requires
            old(db).wf(),
        ensures
            final(db).wf(),
            r is Err ==> (r matches Err(Error::RandError) && *final(db) == *old(db)),
            r matches Ok(s) ==> s.token@.len() == 2 * TOKEN_BYTES && session_user(
                final(db).sessions@,
                s.token@,
            ) == Some(user_id),
            r matches Ok(s) ==> forall|t: Seq<char>| t != s.token@ ==> session_user(final(db).sessions@, t)
                == session_user(old(db).sessions@, t),
            final(db).users == old(db).users,
            final(db).passwords == old(db).passwords,
            final(db).groups == old(db).groups,
            final(db).activities == old(db).activities,
            final(db).statuses == old(db).statuses,
    {
        match random_bytes(TOKEN_BYTES) {
            Some(bytes) => {
                proof {
                    lemma_hex_len(bytes@);
                }
                Ok(Session::from_bytes(db, user_id, &bytes))
            },
            None => Err(Error::RandError),
        }
    }

    /// Opens a session for `user_id` whose token is the hexadecimal form of `bytes`;
    /// a session with the same token is taken over.
    pub fn from_bytes(db: &mut Store, user_id: u64, bytes: &Vec<u8>) -> (r: Session)
        requires
            old(db).wf(),
        ensures
            final(db).wf(),
            r.token@ == hex_of(bytes@),
            session_user(final(db).sessions@, r.token@) == Some(user_id),
            forall|t: Seq<char>| t != r.token@ ==> session_user(final(db).sessions@, t)
                == session_user(old(db).sessions@, t),
            final(db).users == old(db).users,
            final(db).passwords == old(db).passwords,
            final(db).groups == old(db).groups,
            final(db).activities == old(db).activities,
            final(db).statuses == old(db).statuses,
    {
        Session::open(db, user_id, to_hex(bytes))
    }

    /// Opens a session for `user_id` under `token`; a session with the same token is
    /// taken over.
    pub fn open(db: &mut Store, user_id: u64, token: String) -> (r: Session)
        requires
            old(db).wf(),
        ensures
            final(db).wf(),
            r.token@ == token@,
            session_user(final(db).sessions@, r.token@) == Some(user_id),
            forall|t: Seq<char>| t != r.token@ ==> session_user(final(db).sessions@, t)
                == session_user(old(db).sessions@, t),
            final(db).users == old(db).users,
            final(db).passwords == old(db).passwords,
            final(db).groups == old(db).groups,
            final(db).activities == old(db).activities,
            final(db).statuses == old(db).statuses,
    {
        let key = token.clone();
        let found = find_token(&db.sessions, &token);
        let ghost old_s = db.sessions@;
        match found {
            Some(i) => {
                db.sessions.remove(i);
                db.sessions.insert(i, (key, user_id));
                proof {
                    let s = db.sessions@;
                    assert(s =~= old_s.update(i as int, (key, user_id)));
                    lemma_session_at(s, i as int);
                    assert forall|t: Seq<char>| t != token@ implies session_user(s, t)
                        == session_user(old_s, t) by {
                        if exists|j: int| 0 <= j < s.len() && (#[trigger] s[j]).0@ == t {
                            let j = choose|j: int| 0 <= j < s.len() && (#[trigger] s[j]).0@ == t;
                            lemma_session_at(s, j);
                            lemma_session_at(old_s, j);
                        } else {
                            assert forall|j: int| 0 <= j < old_s.len() implies (#[trigger] old_s[j]).0@ != t by {
                                if j != i {
                                    assert(s[j] == old_s[j]);
                                }
                            }
                        }
                    }
                }
            },
            None => {
                db.sessions.push((key, user_id));
                proof {
                    let s = db.sessions@;
                    assert(s =~= old_s.push((key, user_id)));
                    lemma_session_at(s, s.len() - 1);
                    assert forall|t: Seq<char>| t != token@ implies session_user(s, t)
                        == session_user(old_s, t) by {
                        if exists|j: int| 0 <= j < s.len() && (#[trigger] s[j]).0@ == t {
                            let j = choose|j: int| 0 <= j < s.len() && (#[trigger] s[j]).0@ == t;
                            lemma_session_at(s, j);
                            lemma_session_at(old_s, j);
                        } else {
                            assert forall|j: int| 0 <= j < old_s.len() implies (#[trigger] old_s[j]).0@ != t by {
                                assert(s[j] == old_s[j]);
                            }
                        }
                    }
                }
            },
        }
        Session { token }
    }

    /// The user that this session authenticates.
    pub fn get(&self, db: &Store) -> (r: Result<u64, Error>)
        requires
            db.wf(),
        ensures
            match session_user(db.sessions@, self.token@) {
                Some(u) => r matches Ok(v) && v == u,
                None => r matches Err(Error::AuthenticationError),
            },
    {
        match find_token(&db.sessions, &self.token) {
            Some(i) => {
                proof {
                    lemma_session_at(db.sessions@, i as int);
                }
                Ok(db.sessions[i].1)
            },
            None => Err(Error::AuthenticationError),
        }
    }

    /// Ends this session; a token that is not open is left alone.
    pub fn delete(&self, db: &mut Store)
        requires
            old(db).wf(),
        ensures
            final(db).wf(),
            session_user(final(db).sessions@, self.token@) is None,
            forall|t: Seq<char>| t != self.token@ ==> session_user(final(db).sessions@, t)
                == session_user(old(db).sessions@, t),
            final(db).users == old(db).users,
            final(db).passwords == old(db).passwords,
            final(db).groups == old(db).groups,
            final(db).activities == old(db).activities,
            final(db).statuses == old(db).statuses,
    {
        let ghost old_s = db.sessions@;
        match find_token(&db.sessions, &self.token) {
            Some(i) => {
                db.sessions.remove(i);
                proof {
                    let s = db.sessions@;
                    assert(s =~= old_s.remove(i as int));
                    assert forall|j: int| 0 <= j < s.len() implies (#[trigger] s[j]).0@ != self.token@ by {
                        if j < i {
                            assert(s[j] == old_s[j]);
                        } else {
                            assert(s[j] == old_s[j + 1]);
                        }
                    }
                    assert forall|t: Seq<char>| t != self.token@ implies session_user(s, t)
                        == session_user(old_s, t) by {
                        if exists|j: int| 0 <= j < s.len() && (#[trigger] s[j]).0@ == t {
                            let j = choose|j: int| 0 <= j < s.len() && (#[trigger] s[j]).0@ == t;
                            lemma_session_at(s, j);
                            if j < i {
                                lemma_session_at(old_s, j);
                            } else {
                                assert(s[j] == old_s[j + 1]);
                                lemma_session_at(old_s, j + 1);
                            }
                        } else {
                            assert forall|j: int| 0 <= j < old_s.len() implies (#[trigger] old_s[j]).0@ != t by {
                                if j < i {
                                    assert(s[j] == old_s[j]);
                                } else if j > i {
                                    assert(s[j - 1] == old_s[j]);
                                }
                            }
                        }
                    }
                }
            },
            None => {},
        }
    }
}

/// The position of token `t` among the sessions.
pub fn find_token(s: &Vec<(String, u64)>, t: &String) -> (r: Option<usize>)
    ensures
        match r {
            Some(i) => i < s@.len() && s@[i as int].0@ == t@,
            None => forall|j: int| 0 <= j < s@.len() ==> (#[trigger] s@[j]).0@ != t@,
        },
{
    let mut i: usize = 0;
    while i < s.len()
        invariant
            i <= s@.len(),
            forall|j: int| 0 <= j < i ==> (#[trigger] s@[j]).0@ != t@,
        decreases s@.len() - i,
    {
        if s[i].0 == *t {
            return Some(i);
        }
        i = i + 1;
    }
    None
}

} // verus!
