//! User repository: persists user records in the backing store and
//! checks login credentials against them.
//!
//! The store models the `users` table: ids are assigned by the store and
//! usernames are unique. Lookup failure and a failed password check are
//! indistinguishable to a caller, so usernames cannot be enumerated.

use vstd::prelude::*;
use vstd::string::*;
use crate::auth::CreateUser;
use crate::auth::User;
use crate::auth::bcrypt_check;
use crate::auth::bcrypt_matches;

verus! {

/// Login input: consumed once to check a password, then discarded.
pub struct Login {
    pub username: String,
    pub password: String,
}

/// The storage failure kind. Creation failures are deliberately coarse:
/// a duplicate username is not distinguished from any other failure.
#[derive(Clone, Copy, PartialEq, Eq, Structural, Debug)]
pub enum DbHelperError {
    Storage,
}

/// Whether some stored user carries this username.
pub open spec fn has_username(users: Seq<User>, username: Seq<char>) -> bool {
    exists|i: int| 0 <= i < users.len() && users[i].username@ == username
}

/// Whether a login with these credentials succeeds against the store:
/// some user carries the username and the password matches its hash.
pub open spec fn login_ok(users: Seq<User>, username: Seq<char>, password: Seq<char>) -> bool {
    exists|i: int|
        0 <= i < users.len() && users[i].username@ == username && bcrypt_matches(
            password,
            users[i].spec_password_hash(),
        )
}

/// The user table: ids are assigned from `next_id`, usernames are unique.
pub struct UserStore {
    pub users: Vec<User>,
    pub next_id: i64,
}

impl UserStore {
    pub open spec fn wf(&self) -> bool {
        &&& 1 <= self.next_id
        &&& forall|i: int|
            0 <= i < self.users@.len() ==> 1 <= #[trigger] self.users@[i].id < self.next_id
        &&& forall|i: int, j: int|
            0 <= i < j < self.users@.len() ==> self.users@[i].username@
                != self.users@[j].username@
    }

    pub fn new() -> (r: UserStore)
        ensures
            r.wf(),
            r.users@.len() == 0,
            r.next_id == 1,
    {
        UserStore { users: Vec::new(), next_id: 1 }
    }
}

/// Character-for-character string comparison.
fn str_eq(a: &str, b: &str) -> (r: bool)
    ensures
        r == (a@ == b@),
{
    let alen = a.unicode_len();
    let blen = b.unicode_len();
    if alen != blen {
        return false;
    }
    let mut i: usize = 0;
    while i < alen
        invariant
            i <= alen,
            alen == a@.len(),
            alen == b@.len(),
            forall|k: int| 0 <= k < i ==> a@[k] == b@[k],
        decreases alen - i,
    {
        if a.get_char(i) != b.get_char(i) {
            return false;
        }
        i = i + 1;
    }
    proof {
        assert(a@ =~= b@);
    }
    true
}

/// The index of the user carrying this username, if any. At most one row
/// matches, as usernames are unique; first-match semantics.
fn find_index_by_username(users: &Vec<User>, username: &str) -> (r: Option<usize>)
    ensures
        match r {
            Some(i) => i < users@.len() && users@[i as int].username@ == username@,
            None => !has_username(users@, username@),
        },
{
    let mut i: usize = 0;
    while i < users.len()
        invariant
            i <= users@.len(),
            forall|k: int| 0 <= k < i ==> users@[k].username@ != username@,
        decreases users@.len() - i,
    {
        if str_eq(users[i].username.as_str(), username) {
            return Some(i);
        }
        i = i + 1;
    }
    None
}

/// Inserts a new user row and hands back its assigned id. Fails when the
/// username is already taken or the id space is exhausted; either way the
/// store is unchanged and the failure is reported as the one coarse kind.
pub fn create_user(user: User, store: &mut UserStore) -> (r: Result<i64, DbHelperError>)
    requires
        old(store).wf(),
    ensures
        final(store).wf(),
        r matches Ok(id) ==> {
            &&& !has_username(old(store).users@, user.username@)
            &&& old(store).next_id < i64::MAX
            &&& id == old(store).next_id
            &&& final(store).next_id == old(store).next_id + 1
            &&& final(store).users@.len() == old(store).users@.len() + 1
            &&& final(store).users@.take(old(store).users@.len() as int) == old(store).users@
            &&& final(store).users@.last().id == id
            &&& final(store).users@.last().username@ == user.username@
            &&& final(store).users@.last().name@ == user.name@
            &&& final(store).users@.last().spec_password_hash() == user.spec_password_hash()
        },
        r is Err ==> final(store).users@ == old(store).users@ && final(store).next_id == old(
            store,
        ).next_id,
        r is Err <==> has_username(old(store).users@, user.username@) || old(store).next_id
            == i64::MAX,
{
    match find_index_by_username(&store.users, user.username.as_str()) {
        Some(_) => Err(DbHelperError::Storage),
        None => {
            if store.next_id == i64::MAX {
                return Err(DbHelperError::Storage);
            }
            let id = store.next_id;
            let hash = user.get_password_hash();
            let row = User::new(id, user.username, user.name, hash);
            store.users.push(row);
            store.next_id = store.next_id + 1;
            proof {
                assert(final(store).users@.take(old(store).users@.len() as int) =~= old(
                    store,
                ).users@);
                assert(forall|k: int|
                    0 <= k < old(store).users@.len() ==> final(store).users@[k] == old(
                        store,
                    ).users@[k]);
                assert(forall|k: int|
                    0 <= k < old(store).users@.len() ==> #[trigger] old(
                        store,
                    ).users@[k].username@ != user.username@);
                assert(store.users@.last().username@ == user.username@);
                assert(forall|i: int, j: int|
                    0 <= i < j < store.users@.len() ==> store.users@[i].username@
                        != store.users@[j].username@);
            }
            Ok(id)
        },
    }
}

/// Login check: looks the username up, then verifies the password against
/// the stored hash. A missing user and a failed password check are both
/// reported as nothing, indistinguishably.
pub fn check_user(login: &Login, store: &UserStore) -> (r: Option<User>)
    requires
        store.wf(),
    ensures
        r is Some <==> login_ok(store.users@, login.username@, login.password@),
        r matches Some(u) ==> {
            &&& u.username@ == login.username@
            &&& bcrypt_matches(login.password@, u.spec_password_hash())
            &&& exists|i: int|
                0 <= i < store.users@.len() && #[trigger] store.users@[i].username@
                    == login.username@ && u.id == store.users@[i].id && u.name@
                    == store.users@[i].name@ && u.spec_password_hash()
                    == store.users@[i].spec_password_hash()
        },
{
    match find_index_by_username(&store.users, login.username.as_str()) {
        None => {
            proof {
                assert(!login_ok(store.users@, login.username@, login.password@));
            }
            None
        },
        Some(i) => {
            let row = &store.users[i];
            let hash = row.get_password_hash();
            if bcrypt_check(login.password.as_str(), hash.as_str()) {
                Some(User::new(row.id, row.username.clone(), row.name.clone(), hash))
            } else {
                proof {
                    assert(forall|j: int|
                        0 <= j < store.users@.len() && #[trigger] store.users@[j].username@
                            == login.username@ ==> j == i as int);
                }
                None
            }
        },
    }
}

/// Looks a user up by username; at most one row matches.
pub fn find_by_username(store: &UserStore, username: &str) -> (r: Option<User>)
    ensures
        r is Some <==> has_username(store.users@, username@),
        r matches Some(u) ==> {
            &&& u.username@ == username@
            &&& exists|i: int|
                0 <= i < store.users@.len() && #[trigger] store.users@[i].username@ == username@
                    && u.id == store.users@[i].id && u.name@ == store.users@[i].name@
                    && u.spec_password_hash() == store.users@[i].spec_password_hash()
        },
{
    match find_index_by_username(&store.users, username) {
        None => None,
        Some(i) => {
            let row = &store.users[i];
            Some(User::new(row.id, row.username.clone(), row.name.clone(), row.get_password_hash()))
        },
    }
}

/// The fixed registration inputs the store is seeded with when empty.
/// Their usernames are pairwise distinct.
pub fn get_create_users() -> (r: Vec<CreateUser>)
    ensures
        r@.len() == 4,
        r@[0].username@ == "test"@,
        r@[1].username@ == "test1"@,
        r@[2].username@ == "test2"@,
        r@[3].username@ == "test3"@,
        forall|i: int| 0 <= i < 4 ==> #[trigger] r@[i].name@ == "test"@,
        forall|i: int| 0 <= i < 4 ==> #[trigger] r@[i].password@ == "test"@,
        forall|i: int, j: int| 0 <= i < j < 4 ==> r@[i].username@ != r@[j].username@,
{
    proof {
        reveal_strlit("test");
        reveal_strlit("test1");
        reveal_strlit("test2");
        reveal_strlit("test3");
    }
    let mut r: Vec<CreateUser> = Vec::new();
    r.push(
        CreateUser {
            username: String::from_str("test"),
            name: String::from_str("test"),
            password: String::from_str("test"),
        },
    );
    r.push(
        CreateUser {
            username: String::from_str("test1"),
            name: String::from_str("test"),
            password: String::from_str("test"),
        },
    );
    r.push(
        CreateUser {
            username: String::from_str("test2"),
            name: String::from_str("test"),
            password: String::from_str("test"),
        },
    );
    r.push(
        CreateUser {
            username: String::from_str("test3"),
            name: String::from_str("test"),
            password: String::from_str("test"),
        },
    );
    proof {
        reveal_strlit("test");
        reveal_strlit("test1");
        reveal_strlit("test2");
        reveal_strlit("test3");
        assert("test"@.len() == 4);
        assert("test1"@.len() == 5);
        assert("test2"@.len() == 5);
        assert("test3"@.len() == 5);
        assert("test1"@[4] == '1');
        assert("test2"@[4] == '2');
        assert("test3"@[4] == '3');
        assert(r@[0].username@ != r@[1].username@);
        assert(r@[0].username@ != r@[2].username@);
        assert(r@[0].username@ != r@[3].username@);
        assert(r@[1].username@ != r@[2].username@);
        assert(r@[1].username@ != r@[3].username@);
        assert(r@[2].username@ != r@[3].username@);
    }
    r
}

/// Prepares the user storage: seeds the fixed users when the store is
/// empty, and leaves a non-empty store untouched. A seeding run that
/// succeeds on an empty store leaves exactly the four seed users behind;
/// only a hashing failure can interrupt it.
pub fn initialize_db(store: &mut UserStore) -> (r: Result<(), DbHelperError>)
    requires
        old(store).wf(),
    ensures
        final(store).wf(),
        old(store).users@.len() > 0 ==> final(store).users@ == old(store).users@
            && final(store).next_id == old(store).next_id,
        r matches Ok(_) && old(store).users@.len() == 0 ==> {
            &&& final(store).users@.len() == 4
            &&& final(store).users@[0].username@ == "test"@
            &&& final(store).users@[1].username@ == "test1"@
            &&& final(store).users@[2].username@ == "test2"@
            &&& final(store).users@[3].username@ == "test3"@
        },
{
    if store.users.len() > 0 {
        return Ok(());
    }
    let seeds = get_create_users();
    let mut k: usize = 0;
    while k < seeds.len()
        invariant
            store.wf(),
            old(store).users@.len() == 0,
            k <= 4,
            seeds@.len() == 4,
            store.users@.len() == k,
            store.next_id == old(store).next_id + k,
            forall|t: int|
                0 <= t < k ==> #[trigger] store.users@[t].username@ == seeds@[t].username@,
            seeds@[0].username@ == "test"@,
            seeds@[1].username@ == "test1"@,
            seeds@[2].username@ == "test2"@,
            seeds@[3].username@ == "test3"@,
            forall|i: int, j: int| 0 <= i < j < 4 ==> seeds@[i].username@ != seeds@[j].username@,
        decreases seeds@.len() - k,
    {
        let seed = &seeds[k];
        let user = match User::from_create(
            CreateUser {
                username: seed.username.clone(),
                name: seed.name.clone(),
                password: seed.password.clone(),
            },
        ) {
            Some(u) => u,
            None => {
                return Err(DbHelperError::Storage);
            },
        };
        proof {
            assert(!has_username(store.users@, seeds@[k as int].username@)) by {
                assert(forall|t: int|
                    0 <= t < k ==> #[trigger] store.users@[t].username@ != seeds@[
                        k as int
                    ].username@);
            };
        }
        match create_user(user, store) {
            Ok(_) => (),
            Err(e) => {
                return Err(e);
            },
        }
        proof {
            assert(forall|t: int|
                0 <= t < k ==> #[trigger] store.users@[t] == store.users@.take(k as int)[t]);
        }
        k = k + 1;
    }
    Ok(())
}

/// Registering a user and then logging in with the same credentials
/// always matches: the fresh row carries a hash the password verifies
/// against.
pub proof fn lemma_login_after_create(users: Seq<User>, u: User, password: Seq<char>)
    requires
        bcrypt_matches(password, u.spec_password_hash()),
    ensures
        login_ok(users.push(u), u.username@, password),
{
    assert(users.push(u)[users.len() as int] == u);
}

/// A wrong password is rejected exactly like a nonexistent username: when
/// no stored row both carries the username and matches the password, the
/// login check reports nothing. A store without the username satisfies
/// the premise vacuously.
pub proof fn lemma_login_indistinguishable(
    users: Seq<User>,
    username: Seq<char>,
    password: Seq<char>,
)
    requires
        forall|i: int|
            0 <= i < users.len() && #[trigger] users[i].username@ == username
                ==> !bcrypt_matches(password, users[i].spec_password_hash()),
    ensures
        !login_ok(users, username, password),
{
}

} // verus!
