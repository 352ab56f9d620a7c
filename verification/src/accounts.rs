//! Accounts and sessions: the user, profile, session and key records,
//! and the decisions of the authentication and user services. Lookups
//! and persistence stay with the caller; these functions decide.

use vstd::prelude::*;
use crate::error::AppError;
use crate::ids::new_uuid_string;
use crate::strutil::str_eq;

verus! {

/// How long a session lives, in seconds: thirty days.
pub const SESSION_LIFETIME_SECS: i64 = 2592000;

/// How long a password-reset token lives, in seconds: one day.
pub const RESET_TOKEN_LIFETIME_SECS: i64 = 86400;

/// One account.
pub struct User {
    pub id: String,
    pub email: Option<String>,
    pub username: String,
    pub created_at: i64,
    pub updated_at: i64,
}

/// The profile handed to the user interface.
pub struct UserProfile {
    pub id: String,
    pub email: Option<String>,
    pub username: String,
    pub created_at: i64,
    pub updated_at: i64,
}

/// One login session.
pub struct Session {
    pub token: String,
    pub user_id: String,
    pub device_id: Option<String>,
    pub created_at: i64,
    pub expires_at: i64,
}

/// One account's at-rest encryption key material.
pub struct EncryptionKey {
    pub id: String,
    pub user_id: String,
    pub key_data: Vec<u8>,
    pub nonce: Vec<u8>,
    pub created_at: i64,
}

/// The prefix of `s` before its first `@`, or all of `s` when it has
/// none.
pub open spec fn spec_local_part(s: Seq<char>) -> Seq<char> {
    if exists|k: int| 0 <= k < s.len() && s[k] == '@' {
        s.take(choose|k: int| 0 <= k < s.len() && s[k] == '@' && (forall|j: int|
            0 <= j < k ==> s[j] != '@'))
    } else {
        s
    }
}

/// The authentication service's decisions.
pub struct AuthService;

impl AuthService {
    /// A fresh session for a login at `now`: a new opaque token, bound to
    /// the device, expiring thirty days later.
    pub fn build_session(user_id: &str, device_id: &str, now: i64) -> (session: Session)
        requires
            now <= i64::MAX - SESSION_LIFETIME_SECS,
        ensures
            session.token@.len() == 36,
            session.user_id@ == user_id@,
            session.device_id matches Some(d) && d@ == device_id@,
            session.created_at == now,
            session.expires_at == now + SESSION_LIFETIME_SECS,
    {
        Session {
            token: new_uuid_string(),
            user_id: user_id.to_owned(),
            device_id: Some(device_id.to_owned()),
            created_at: now,
            expires_at: now + SESSION_LIFETIME_SECS,
        }
    }

    /// Whether a looked-up session still grants access at `now`: a missing
    /// session is not found, one at or past its expiry is invalid data,
    /// and otherwise the session stands.
    pub fn check_session(session: Option<Session>, now: i64) -> (r: Result<Session, AppError>)
        ensures
            match session {
                None => r matches Err(e) && e is NotFound,
                Some(s) => if s.expires_at > now {
                    r matches Ok(out) && out == s
                } else {
                    r matches Err(e) && e is InvalidData
                },
            },
    {
        match session {
            None => Err(AppError::NotFound("session does not exist".to_owned())),
            Some(s) => {
                if s.expires_at > now {
                    Ok(s)
                } else {
                    Err(AppError::InvalidData("session has expired".to_owned()))
                }
            },
        }
    }

    /// A fresh password-reset token issued at `now`: a new opaque token,
    /// expiring a day later.
    pub fn build_reset_token(now: i64) -> (r: (String, i64))
        requires
            now <= i64::MAX - RESET_TOKEN_LIFETIME_SECS,
        ensures
            r.0@.len() == 36,
            r.1 == now + RESET_TOKEN_LIFETIME_SECS,
    {
        (new_uuid_string(), now + RESET_TOKEN_LIFETIME_SECS)
    }

    /// Whether a looked-up reset token row authorizes a reset: a missing
    /// or expired row (the lookup already filters expiry) is invalid data,
    /// a live one names the account to act on.
    pub fn reset_gate(user_id: Option<String>) -> (r: Result<String, AppError>)
        ensures
            match user_id {
                None => r matches Err(e) && e is InvalidData,
                Some(u) => r matches Ok(out) && out == u,
            },
    {
        match user_id {
            None => Err(AppError::InvalidData("invalid or expired reset token".to_owned())),
            Some(u) => Ok(u),
        }
    }

    /// Turn a password-verification outcome into the login decision: a
    /// verifier failure is a crypto error, a mismatch means the
    /// credentials are invalid, a match lets the login proceed.
    pub fn password_gate(verified: Result<bool, String>) -> (r: Result<(), AppError>)
        ensures
            match verified {
                Err(_) => r matches Err(e) && e is CryptoError,
                Ok(false) => r matches Err(e) && e is InvalidCredentials,
                Ok(true) => r is Ok,
            },
    {
        match verified {
            Err(e) => Err(AppError::CryptoError(e)),
            Ok(false) => Err(AppError::InvalidCredentials),
            Ok(true) => Ok(()),
        }
    }
}

/// The user service's decisions.
pub struct UserService;

impl UserService {
    /// The username derived from an email address: everything before the
    /// first `@`.
    pub fn username_from_email(email: &str) -> (name: String)
        ensures
            name@ == spec_local_part(email@),
    {
        let n = email.unicode_len();
        let mut i: usize = 0;
        while i < n
            invariant
                n == email@.len(),
                i <= n,
                forall|j: int| 0 <= j < i ==> email@[j] != '@',
            decreases n - i,
        {
            if email.get_char(i) == '@' {
                let prefix = email.substring_char(0, i);
                proof {
                    let k = choose|k: int|
                        0 <= k < email@.len() && email@[k] == '@' && (forall|j: int|
                            0 <= j < k ==> email@[j] != '@');
                    assert(email@[i as int] == '@');
                    if k < i {
                        assert(email@[k] != '@');
                    }
                    if i < k {
                        assert(email@[i as int] != '@');
                    }
                    assert(k == i);
                    assert(prefix@ =~= spec_local_part(email@));
                }
                return prefix.to_owned();
            }
            i = i + 1;
        }
        proof {
            assert(spec_local_part(email@) =~= email@);
        }
        email.to_owned()
    }

    /// A fresh account for a verified registration at `now`: a new opaque
    /// id, the email kept, the username derived from it.
    pub fn build_user(email: &str, now: i64) -> (user: User)
        ensures
            user.id@.len() == 36,
            user.email matches Some(e) && e@ == email@,
            user.username@ == spec_local_part(email@),
            user.created_at == now,
            user.updated_at == now,
    {
        User {
            id: new_uuid_string(),
            email: Some(email.to_owned()),
            username: Self::username_from_email(email),
            created_at: now,
            updated_at: now,
        }
    }

    /// The registration gate: the verification code must match and the
    /// email must be free, in that order.
    pub fn register_gate(code_valid: bool, email_taken: bool) -> (r: Result<(), AppError>)
        ensures
            !code_valid ==> (r matches Err(e) && e is InvalidData),
            code_valid && email_taken ==> (r matches Err(e) && e is InvalidData),
            code_valid && !email_taken ==> r is Ok,
    {
        if !code_valid {
            Err(AppError::InvalidData("verification code is invalid".to_owned()))
        } else if email_taken {
            Err(AppError::InvalidData("email is already registered".to_owned()))
        } else {
            Ok(())
        }
    }

    /// Whether a stored verification code row matches the submitted code;
    /// a missing row never matches.
    pub fn code_matches(stored: Option<&String>, code: &str) -> (r: bool)
        ensures
            r == (stored matches Some(s) && s@ == code@),
    {
        match stored {
            Some(s) => str_eq(s.as_str(), code),
            None => false,
        }
    }

    /// The profile shown for an account: the same fields, copied.
    pub fn profile_of(user: &User) -> (profile: UserProfile)
        ensures
            profile.id@ == user.id@,
            (match profile.email {
                Some(e) => user.email matches Some(u) && u@ == e@,
                None => user.email is None,
            }),
            profile.username@ == user.username@,
            profile.created_at == user.created_at,
            profile.updated_at == user.updated_at,
    {
        UserProfile {
            id: user.id.clone(),
            email: match &user.email {
                Some(e) => Some(e.clone()),
                None => None,
            },
            username: user.username.clone(),
            created_at: user.created_at,
            updated_at: user.updated_at,
        }
    }

    /// An account after a profile update at `now`: the new username and
    /// email, the id and creation time kept.
    pub fn apply_profile_update(user: &User, username: &str, email: &str, now: i64) -> (updated:
        User)
        ensures
            updated.id@ == user.id@,
            updated.email matches Some(e) && e@ == email@,
            updated.username@ == username@,
            updated.created_at == user.created_at,
            updated.updated_at == now,
    {
        User {
            id: user.id.clone(),
            email: Some(email.to_owned()),
            username: username.to_owned(),
            created_at: user.created_at,
            updated_at: now,
        }
    }
}

} // verus!
