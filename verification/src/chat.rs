//! The chat room state: the set of present users, the bounded message
//! log, and the hash by which a socket path names its user.  The web
//! sockets, the broadcast channel and the timestamps around a message
//! are handled outside the library; this is the state they coordinate on.

use vstd::prelude::*;

use crate::text::{lower_of, lowercase};

verus! {

/// How many messages the log keeps before the oldest is dropped.
pub const CHAT_LOG_CAPACITY: usize = 1000;

/// The submitted join form: the requested user name.
pub struct Chatform {
    pub name: String,
}

/// What seahash::hash returns for a name's bytes: a function of the
/// characters alone.
pub uninterp spec fn sea_hash(s: Seq<char>) -> u64;

/// Relies on seahash::hash: a pure function of its input bytes with a
/// fixed, prechosen seed, so the same name hashes to the same value in
/// every process.
#[verifier::external_body]
pub fn user_hash(name: &str) -> (r: u64)
    ensures
        r == sea_hash(name@),
{
    seahash::hash(name.as_bytes())
}

/// The reserved user name: anything that lowercases to "system".
pub fn is_system_name(name: &str) -> (r: bool)
    ensures
        r == (lower_of(name@) == "system"@),
{
    let lower = lowercase(name);
    lower == "system".to_owned()
}

/// One chat message, with its timestamp in milliseconds since the epoch.
pub struct ChatMessage {
    pub timestamp_ms: i64,
    pub username: String,
    pub message: String,
}

/// The chat room: present users in join order (no name twice), the
/// bounded message log, and the capacity its broadcast channel is built
/// with.
pub struct Chat {
    pub users: Vec<String>,
    pub log: Vec<ChatMessage>,
    pub channel_capacity: usize,
}

/// No user name occurs twice.
pub open spec fn users_distinct(users: Seq<String>) -> bool {
    forall|i: int, j: int|
        0 <= i < j < users.len() ==> (#[trigger] users[i])@ != (#[trigger] users[j])@
}

/// Some present user carries this name.
pub open spec fn has_user(users: Seq<String>, name: Seq<char>) -> bool {
    exists|i: int| 0 <= i < users.len() && (#[trigger] users[i])@ == name
}

/// The users with the first holder of the name removed; without the
/// name, the sequence is unchanged.
pub open spec fn remove_name(users: Seq<String>, name: Seq<char>) -> Seq<String>
    decreases users.len(),
{
    if users.len() == 0 {
        users
    } else if users[0]@ == name {
        users.drop_first()
    } else {
        seq![users[0]] + remove_name(users.drop_first(), name)
    }
}

/// The index of the first user whose name hashes to the id, or -1.
pub open spec fn find_hash(users: Seq<String>, id: u64) -> int
    decreases users.len(),
{
    if users.len() == 0 {
        -1
    } else if sea_hash(users[0]@) == id {
        0
    } else {
        let r = find_hash(users.drop_first(), id);
        if r < 0 {
            -1
        } else {
            r + 1
        }
    }
}

proof fn lemma_remove_name_at(users: Seq<String>, name: Seq<char>, i: int)
    requires
        0 <= i < users.len(),
        forall|j: int| 0 <= j < i ==> (#[trigger] users[j])@ != name,
        users[i]@ == name,
    ensures
        remove_name(users, name) =~= users.remove(i),
    decreases i,
{
    if i > 0 {
        assert forall|j: int| 0 <= j < i - 1 implies (#[trigger] users.drop_first()[j])@
            != name by {
            assert(users.drop_first()[j] == users[j + 1]);
        }
        lemma_remove_name_at(users.drop_first(), name, i - 1);
    }
}

proof fn lemma_remove_name_absent(users: Seq<String>, name: Seq<char>)
    requires
        forall|j: int| 0 <= j < users.len() ==> (#[trigger] users[j])@ != name,
    ensures
        remove_name(users, name) =~= users,
    decreases users.len(),
{
    if users.len() > 0 {
        assert forall|j: int| 0 <= j < users.drop_first().len() implies (#[trigger] users
            .drop_first()[j])@ != name by {
            assert(users.drop_first()[j] == users[j + 1]);
        }
        lemma_remove_name_absent(users.drop_first(), name);
    }
}

proof fn lemma_find_hash_at(users: Seq<String>, id: u64, i: int)
    requires
        0 <= i < users.len(),
        forall|j: int| 0 <= j < i ==> sea_hash((#[trigger] users[j])@) != id,
        sea_hash(users[i]@) == id,
    ensures
        find_hash(users, id) == i,
    decreases i,
{
    if i > 0 {
        assert forall|j: int| 0 <= j < i - 1 implies sea_hash(
            (#[trigger] users.drop_first()[j])@,
        ) != id by {
            assert(users.drop_first()[j] == users[j + 1]);
        }
        lemma_find_hash_at(users.drop_first(), id, i - 1);
    }
}

proof fn lemma_find_hash_absent(users: Seq<String>, id: u64)
    requires
        forall|j: int| 0 <= j < users.len() ==> sea_hash((#[trigger] users[j])@) != id,
    ensures
        find_hash(users, id) == -1,
    decreases users.len(),
{
    if users.len() > 0 {
        assert forall|j: int| 0 <= j < users.drop_first().len() implies sea_hash(
            (#[trigger] users.drop_first()[j])@,
        ) != id by {
            assert(users.drop_first()[j] == users[j + 1]);
        }
        lemma_find_hash_absent(users.drop_first(), id);
    }
}

impl Chat {
    /// The empty room.  The capacity is what the broadcast channel
    /// around this state is later built with.
    pub fn new(log_size: usize) -> (c: Chat)
        ensures
            c.users@.len() == 0,
            c.log@.len() == 0,
            c.channel_capacity == log_size,
            users_distinct(c.users@),
    {
        Chat { users: Vec::new(), log: Vec::new(), channel_capacity: log_size }
    }

    /// Admit a user: fails exactly when the name is already present,
    /// otherwise the name joins at the end.
    pub fn join(&mut self, username: String) -> (r: Result<(), &'static str>)
        requires
            users_distinct(old(self).users@),
        ensures
            r is Err <==> has_user(old(self).users@, username@),
            r is Err ==> final(self).users@ == old(self).users@,
            r is Ok ==> final(self).users@ == old(self).users@.push(username),
            final(self).log == old(self).log,
            final(self).channel_capacity == old(self).channel_capacity,
            users_distinct(final(self).users@),
    {
        let n = self.users.len();
        let mut i: usize = 0;
        while i < n
            invariant
                i <= n,
                n == self.users@.len(),
                self.users@ == old(self).users@,
                self.log == old(self).log,
                self.channel_capacity == old(self).channel_capacity,
                users_distinct(self.users@),
                forall|j: int| 0 <= j < i ==> (#[trigger] self.users@[j])@ != username@,
            decreases n - i,
        {
            if self.users[i] == username {
                return Err("user already in chat");
            }
            i = i + 1;
        }
        self.users.push(username);
        Ok(())
    }

    /// Drop a user; tells whether the name was present at all.
    pub fn leave(&mut self, username: &String) -> (r: bool)
        requires
            users_distinct(old(self).users@),
        ensures
            r == has_user(old(self).users@, username@),
            final(self).users@ == remove_name(old(self).users@, username@),
            final(self).log == old(self).log,
            final(self).channel_capacity == old(self).channel_capacity,
            users_distinct(final(self).users@),
    {
        let ghost users0 = old(self).users@;
        let n = self.users.len();
        let mut i: usize = 0;
        while i < n
            invariant
                i <= n,
                n == self.users@.len(),
                users0 == old(self).users@,
                self.users@ == users0,
                self.log == old(self).log,
                self.channel_capacity == old(self).channel_capacity,
                users_distinct(users0),
                forall|j: int| 0 <= j < i ==> (#[trigger] users0[j])@ != username@,
            decreases n - i,
        {
            if self.users[i] == *username {
                self.users.remove(i);
                proof {
                    lemma_remove_name_at(users0, username@, i as int);
                    assert(self.users@ =~= remove_name(users0, username@));
                    assert forall|a: int, b: int|
                        0 <= a < b < self.users@.len() implies (#[trigger] self.users@[a])@ != (
                    #[trigger] self.users@[b])@ by {
                        let a0 = if a < i {
                            a
                        } else {
                            a + 1
                        };
                        let b0 = if b < i {
                            b
                        } else {
                            b + 1
                        };
                        assert(self.users@[a] == users0[a0] && self.users@[b] == users0[b0]);
                    }
                }
                return true;
            }
            i = i + 1;
        }
        proof {
            lemma_remove_name_absent(users0, username@);
            assert(self.users@ =~= remove_name(users0, username@));
        }
        false
    }

    /// Look a user up by the hash of its name: the first user, in join
    /// order, whose name hashes to the id.
    pub fn find(&self, id: u64) -> (r: Option<String>)
        ensures
            match r {
                Some(name) => find_hash(self.users@, id) >= 0 && name@ == self.users@[find_hash(
                    self.users@,
                    id,
                )]@,
                None => find_hash(self.users@, id) == -1,
            },
    {
        let n = self.users.len();
        let mut i: usize = 0;
        while i < n
            invariant
                i <= n,
                n == self.users@.len(),
                forall|j: int| 0 <= j < i ==> sea_hash((#[trigger] self.users@[j])@) != id,
            decreases n - i,
        {
            let h = user_hash(self.users[i].as_str());
            if h == id {
                proof {
                    lemma_find_hash_at(self.users@, id, i as int);
                }
                return Some(self.users[i].clone());
            }
            i = i + 1;
        }
        proof {
            lemma_find_hash_absent(self.users@, id);
        }
        None
    }

    /// Append a message to the log; past the capacity the oldest one
    /// falls out.
    pub fn log_message(&mut self, msg: ChatMessage)
        requires
            old(self).log@.len() <= CHAT_LOG_CAPACITY,
        ensures
            final(self).log@ == (if old(self).log@.len() == CHAT_LOG_CAPACITY {
                old(self).log@.push(msg).drop_first()
            } else {
                old(self).log@.push(msg)
            }),
            final(self).log@.len() <= CHAT_LOG_CAPACITY,
            final(self).users == old(self).users,
            final(self).channel_capacity == old(self).channel_capacity,
    {
        self.log.push(msg);
        if self.log.len() > CHAT_LOG_CAPACITY {
            self.log.remove(0);
            proof {
                assert(self.log@ =~= old(self).log@.push(msg).drop_first());
            }
        }
    }
}

} // verus!
