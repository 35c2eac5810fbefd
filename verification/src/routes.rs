//! The decisions behind the HTTP endpoints: registration, login, the
//! authenticated greeting, and sending a message. The HTTP wiring itself
//! lives outside the library and hands these functions plain values.

use vstd::prelude::*;
use vstd::string::*;
use crate::auth::AuthBody;
use crate::auth::AuthError;
use crate::auth::Claims;
use crate::auth::CreateUser;
use crate::auth::Keys;
use crate::auth::User;
use crate::auth::bcrypt_matches;
use crate::db_helper::DbHelperError;
use crate::db_helper::Login;
use crate::db_helper::UserStore;
use crate::db_helper::check_user;
use crate::db_helper::create_user;
use crate::db_helper::has_username;
use crate::db_helper::login_ok;
use crate::messages::CreateMessage;
use crate::messages::Message;
use crate::messages::MessageStore;
use crate::messages::MsgModel;
use crate::messages::create_message;
use crate::token::MAX_TIMESTAMP;
use crate::token::TOKEN_LIFETIME_SECS;
use crate::token::dec_digits;
use crate::token::issue_token;
use crate::token::token_chars;
use crate::token::u64_to_dec_string;

verus! {

/// Registration: hashes the password and inserts the user; a taken
/// username or any other creation failure yields the one coarse error.
pub fn register(payload: CreateUser, store: &mut UserStore) -> (r: Result<i64, DbHelperError>)
    requires
        old(store).wf(),
    ensures
        final(store).wf(),
        r matches Ok(id) ==> {
            &&& !has_username(old(store).users@, payload.username@)
            &&& id == old(store).next_id
            &&& final(store).users@.len() == old(store).users@.len() + 1
            &&& final(store).users@.take(old(store).users@.len() as int) == old(store).users@
            &&& final(store).users@.last().id == id
            &&& final(store).users@.last().username@ == payload.username@
            &&& final(store).users@.last().name@ == payload.name@
            &&& bcrypt_matches(
                payload.password@,
                final(store).users@.last().spec_password_hash(),
            )
        },
        r is Err ==> final(store).users@ == old(store).users@ && final(store).next_id == old(
            store,
        ).next_id,
        has_username(old(store).users@, payload.username@) ==> r is Err,
{
    match User::from_create(payload) {
        None => Err(DbHelperError::Storage),
        Some(u) => create_user(u, store),
    }
}

/// Login: looks the user up and checks the password; on a match a signed
/// bearer token for the user's id is issued, valid for a day. Wrong
/// credentials and an unknown username are rejected identically; only a
/// signing failure is reported as a server fault.
pub fn login(payload: &Login, store: &UserStore, keys: &Keys, now: u64) -> (r: Result<
    AuthBody,
    AuthError,
>)
    requires
        store.wf(),
        now <= MAX_TIMESTAMP,
    ensures
        (r == Err::<AuthBody, AuthError>(AuthError::WrongCredentials)) <==> !login_ok(
            store.users@,
            payload.username@,
            payload.password@,
        ),
        r matches Err(e) ==> e == AuthError::WrongCredentials || e == AuthError::TokenCreation,
        r matches Ok(b) ==> {
            &&& b.token_type@ == "Bearer"@
            &&& exists|i: int|
                0 <= i < store.users@.len() && #[trigger] store.users@[i].username@
                    == payload.username@ && b.access_token@ == token_chars(
                    keys.spec_secret(),
                    store.users@[i].id as u64,
                    (now + TOKEN_LIFETIME_SECS) as u64,
                )
        },
{
    match check_user(payload, store) {
        None => Err(AuthError::WrongCredentials),
        Some(u) => {
            proof {
                let i = choose|i: int|
                    0 <= i < store.users@.len() && #[trigger] store.users@[i].username@
                        == payload.username@ && u.id == store.users@[i].id && u.name@
                        == store.users@[i].name@ && u.spec_password_hash()
                        == store.users@[i].spec_password_hash();
                assert(1 <= store.users@[i].id);
            }
            match issue_token(keys, u.id, now) {
                Ok(t) => Ok(AuthBody::new(t)),
                Err(e) => Err(e),
            }
        },
    }
}

/// The greeting of the authenticated probe endpoint: the caller's
/// subject, rendered into a fixed salutation.
pub fn test_auth(claims: &Claims) -> (r: String)
    requires
        0 <= claims.sub,
    ensures
        r@ == "Hello from "@ + dec_digits(claims.sub as nat),
{
    let mut s = String::from_str("Hello from ");
    let n = u64_to_dec_string(claims.sub as u64);
    s.append(n.as_str());
    proof {
        assert(s@ =~= "Hello from "@ + dec_digits(claims.sub as nat));
    }
    s
}

/// Sending a message: the sender is always the authenticated subject,
/// the timestamp is assigned server-side, and the stored row is handed
/// back fully populated.
pub fn send_message(store: &mut MessageStore, claims: &Claims, dto: CreateMessage, now: i64) -> (r:
    Result<Message, DbHelperError>)
    requires
        old(store).wf(),
    ensures
        final(store).wf(),
        r matches Ok(m) ==> {
            &&& m@ == (MsgModel {
                id: old(store).next_id,
                text: dto.text@,
                sender_id: claims.sub,
                receiver_id: dto.receiver_id,
                created_at: now,
                is_read: false,
            })
            &&& final(store).contents() == old(store).contents().push(m@)
            &&& final(store).next_id == old(store).next_id + 1
        },
        r is Err <==> old(store).next_id == i64::MAX,
        r is Err ==> final(store).contents() == old(store).contents() && final(store).next_id
            == old(store).next_id,
{
    let m = Message::from_create(dto, claims.sub, now);
    create_message(store, m)
}

} // verus!
