//! Users and API keys: password hashes and bearer tokens.
//!
//! Passwords are never stored; a user record carries an Argon2 PHC hash
//! string. Hashing and verification are the work of the `argon2` crate,
//! reached through the trusted wrappers at the top of this module; the
//! record keeping around them is verified.

use vstd::prelude::*;

use crate::types::Error;
use crate::types::ErrorKind;

verus! {

/// Whether Argon2 verification of this password against this PHC hash
/// string succeeds. The outcome depends on the two texts alone: the hash
/// string carries its own salt and parameters.
pub uninterp spec fn argon2_verifies(hash: Seq<char>, password: Seq<char>) -> bool;

/// Whether this text parses as a PHC hash string with salt and output.
pub uninterp spec fn is_phc_hash(hash: Seq<char>) -> bool;

/// Relies on argon2's `Argon2::hash_password`: on success it returns a
/// PHC hash string, made with a fresh random salt, that verifies against
/// the hashed password.
#[verifier::external_body]
pub(crate) fn hash_password(password: &str) -> (r: Result<String, ()>)
    ensures
        match r {
            Ok(h) => is_phc_hash(h@) && argon2_verifies(h@, password@),
            Err(_) => true,
        },
{
    match argon2::password_hash::PasswordHasher::hash_password(
        &argon2::Argon2::default(),
        password.as_bytes(),
    ) {
        Ok(h) => Ok(h.to_string()),
        Err(_) => Err(()),
    }
}

/// Relies on argon2's `Argon2::verify_password` and phc's
/// `PasswordHash::new`: parsing succeeds exactly for PHC hash strings,
/// and verification recomputes the hash with the salt and parameters the
/// string carries, so the outcome depends on the two texts alone.
#[verifier::external_body]
pub(crate) fn verify_password(hash: &str, password: &str) -> (r: Result<bool, ()>)
    ensures
        r is Ok <==> is_phc_hash(hash@),
        match r {
            Ok(b) => b == argon2_verifies(hash@, password@),
            Err(_) => true,
        },
{
    match argon2::password_hash::phc::PasswordHash::new(hash) {
        Ok(parsed) => Ok(
            argon2::password_hash::PasswordVerifier::verify_password(
                &argon2::Argon2::default(),
                password.as_bytes(),
                &parsed,
            ).is_ok(),
        ),
        Err(_) => Err(()),
    }
}

/// Relies on password-hash's `try_generate_salt`: 16 bytes from the
/// operating system's secure random source; nothing is promised of their
/// values.
#[verifier::external_body]
fn os_random_bytes() -> (r: Result<[u8; 16], ()>)
{
    match argon2::password_hash::try_generate_salt() {
        Ok(b) => Ok(b),
        Err(_) => Err(()),
    }
}

/// The lower-case hexadecimal digit of a value below 16.
pub open spec fn hex_digit_char(n: int) -> char {
    if n == 0 {
        '0'
    } else if n == 1 {
        '1'
    } else if n == 2 {
        '2'
    } else if n == 3 {
        '3'
    } else if n == 4 {
        '4'
    } else if n == 5 {
        '5'
    } else if n == 6 {
        '6'
    } else if n == 7 {
        '7'
    } else if n == 8 {
        '8'
    } else if n == 9 {
        '9'
    } else if n == 10 {
        'a'
    } else if n == 11 {
        'b'
    } else if n == 12 {
        'c'
    } else if n == 13 {
        'd'
    } else if n == 14 {
        'e'
    } else {
        'f'
    }
}

/// Lower-case hexadecimal text of a byte string: two digits per byte,
/// high nibble first.
pub open spec fn hex_of(s: Seq<u8>) -> Seq<char>
    decreases s.len(),
{
    if s.len() == 0 {
        Seq::<char>::empty()
    } else {
        hex_of(s.drop_last()) + seq![
            hex_digit_char(s.last() as int / 16),
            hex_digit_char(s.last() as int % 16),
        ]
    }
}

/// The hexadecimal digit of one value below 16, as text.
pub(crate) fn hex_digit_str(n: u8) -> (r: &'static str)
    requires
        n < 16,
    ensures
        r@ =~= seq![hex_digit_char(n as int)],
{
    proof {
        reveal_strlit("0");
        reveal_strlit("1");
        reveal_strlit("2");
        reveal_strlit("3");
        reveal_strlit("4");
        reveal_strlit("5");
        reveal_strlit("6");
        reveal_strlit("7");
        reveal_strlit("8");
        reveal_strlit("9");
        reveal_strlit("a");
        reveal_strlit("b");
        reveal_strlit("c");
        reveal_strlit("d");
        reveal_strlit("e");
        reveal_strlit("f");
    }
    if n == 0 {
        "0"
    } else if n == 1 {
        "1"
    } else if n == 2 {
        "2"
    } else if n == 3 {
        "3"
    } else if n == 4 {
        "4"
    } else if n == 5 {
        "5"
    } else if n == 6 {
        "6"
    } else if n == 7 {
        "7"
    } else if n == 8 {
        "8"
    } else if n == 9 {
        "9"
    } else if n == 10 {
        "a"
    } else if n == 11 {
        "b"
    } else if n == 12 {
        "c"
    } else if n == 13 {
        "d"
    } else if n == 14 {
        "e"
    } else {
        "f"
    }
}

/// Encode bytes as lower-case hexadecimal text.
pub fn to_hex(bytes: &[u8]) -> (r: String)
    ensures
        r@ == hex_of(bytes@),
        r@.len() == 2 * bytes@.len(),
{
    let n: usize = bytes.len();
    let mut out: String = String::new();
    let mut i: usize = 0;
    proof {
        assert(bytes@.subrange(0, 0) =~= Seq::<u8>::empty());
        assert(hex_of(bytes@.subrange(0, 0)).len() == 0);
    }
    while i < n
        invariant
            i <= n,
            n == bytes@.len(),
            out@ =~= hex_of(bytes@.subrange(0, i as int)),
            out@.len() == 2 * i,
        decreases n - i,
    {
        let b: u8 = bytes[i];
        out.append(hex_digit_str(b / 16));
        out.append(hex_digit_str(b % 16));
        proof {
            assert(bytes@.subrange(0, i + 1).drop_last() =~= bytes@.subrange(0, i as int));
            assert(bytes@.subrange(0, i + 1).last() == b);
        }
        i = i + 1;
    }
    proof {
        assert(bytes@.subrange(0, n as int) =~= bytes@);
    }
    out
}

/// A stored user: a name and the Argon2 PHC hash of the password.
pub struct User {
    pub id: i32,
    pub name: String,
    pub hashed_password: String,
}

/// A stored API key, owned by one user.
pub struct ApiKey {
    pub id: i32,
    pub key: String,
    pub user_id: i32,
}

/// Some user of the table carries this name.
pub open spec fn has_user(s: Seq<User>, name: Seq<char>) -> bool {
    exists|i: int| 0 <= i < s.len() && s[i].name@ == name
}

/// The user of the table carrying this name; meaningful when present and
/// names are unique.
pub open spec fn user_named(s: Seq<User>, name: Seq<char>) -> User {
    s[choose|i: int| 0 <= i < s.len() && s[i].name@ == name]
}

/// The store of users and their API keys.
pub struct UserStore {
    users: Vec<User>,
    keys: Vec<ApiKey>,
    next_user_id: i32,
    next_key_id: i32,
}

impl UserStore {
    /// The user table.
    pub closed spec fn users(self) -> Seq<User> {
        self.users@
    }

    /// The API key table.
    pub closed spec fn keys(self) -> Seq<ApiKey> {
        self.keys@
    }

    /// The identifier the next created user will get.
    pub closed spec fn next_user(self) -> i32 {
        self.next_user_id
    }

    /// The identifier the next created key will get.
    pub closed spec fn next_key(self) -> i32 {
        self.next_key_id
    }

    /// Names and identifiers are unique, every stored hash is a PHC hash
    /// string, and every key belongs to an existing user.
    pub open spec fn wf(self) -> bool {
        &&& forall|i: int, j: int|
            0 <= i < j < self.users().len() ==> self.users()[i].name@ != self.users()[j].name@
                && self.users()[i].id != self.users()[j].id
        &&& forall|i: int|
            0 <= i < self.users().len() ==> 1 <= (#[trigger] self.users()[i]).id
                < self.next_user() && is_phc_hash(self.users()[i].hashed_password@)
        &&& forall|i: int|
            0 <= i < self.keys().len() ==> 1 <= (#[trigger] self.keys()[i]).id < self.next_key()
                && exists|j: int|
                0 <= j < self.users().len() && (#[trigger] self.users()[j]).id
                    == self.keys()[i].user_id
        &&& 1 <= self.next_user()
        &&& 1 <= self.next_key()
    }

    /// An empty store.
    pub fn new() -> (r: UserStore)
        ensures
            r.wf(),
            r.users() =~= Seq::<User>::empty(),
            r.keys() =~= Seq::<ApiKey>::empty(),
    {
        UserStore { users: Vec::new(), keys: Vec::new(), next_user_id: 1, next_key_id: 1 }
    }

    /// Index of the user with this name.
    fn find_user(&self, username: &str) -> (r: Option<usize>)
        ensures
            match r {
                Some(i) => 0 <= i < self.users().len() && self.users()[i as int].name@
                    == username@,
                None => !has_user(self.users(), username@),
            },
    {
        let needle: String = username.to_owned();
        let n: usize = self.users.len();
        let mut i: usize = 0;
        while i < n
            invariant
                i <= n,
                n == self.users().len(),
                needle@ == username@,
                forall|k: int| 0 <= k < i ==> self.users()[k].name@ != username@,
            decreases n - i,
        {
            if self.users[i].name == needle {
                return Some(i);
            }
            i = i + 1;
        }
        None
    }

    /// Check a password against the user's stored hash.
    /// Returns `Ok(true)` exactly when Argon2 accepts the password.
    pub fn check_password(&self, username: &str, password: &str) -> (r: Result<bool, Error>)
        requires
            self.wf(),
        ensures
            r is Ok <==> has_user(self.users(), username@),
            match r {
                Ok(b) => b == argon2_verifies(
                    user_named(self.users(), username@).hashed_password@,
                    password@,
                ),
                Err(e) => e.spec_kind() == ErrorKind::NotFound,
            },
    {
        let i = match self.find_user(username) {
            Some(i) => i,
            None => {
                return Err(Error::new(ErrorKind::NotFound, "User not found"));
            },
        };
        proof {
            let c = choose|c: int| 0 <= c < self.users().len() && self.users()[c].name@ == username@;
            assert(self.users()[c] == self.users()[i as int]);
        }
        match verify_password(self.users[i].hashed_password.as_str(), password) {
            Ok(b) => Ok(b),
            Err(_) => {
                proof {
                    assert(false);
                }
                Err(Error::new(ErrorKind::InvalidInput, "Password verification failed"))
            },
        }
    }

    /// Store a hash for a user: replace the existing user's hash, or
    /// create the user.
    fn update_user(&mut self, username: &str, hashed: String) -> (r: Result<(), Error>)
        requires
            old(self).wf(),
            is_phc_hash(hashed@),
        ensures
            final(self).wf(),
            final(self).keys() == old(self).keys(),
            r is Ok <==> has_user(old(self).users(), username@) || old(self).next_user()
                < i32::MAX,
            match r {
                Ok(_) => {
                    &&& has_user(final(self).users(), username@)
                    &&& user_named(final(self).users(), username@).hashed_password@ == hashed@
                    &&& user_named(final(self).users(), username@).name@ == username@
                    &&& (has_user(old(self).users(), username@) ==> final(self).users().len()
                        == old(self).users().len())
                    &&& (!has_user(old(self).users(), username@) ==> final(self).users().len()
                        == old(self).users().len() + 1)
                    &&& forall|j: int|
                        0 <= j < old(self).users().len() && old(self).users()[j].name@ != username@
                            ==> final(self).users()[j] == old(self).users()[j]
                },
                Err(e) => *final(self) == *old(self) && e.spec_kind() == ErrorKind::InternalError,
            },
    {
        match self.find_user(username) {
            Some(i) => {
                let ghost s = self.users();
                let mut rec = self.users.remove(i);
                rec.hashed_password = hashed;
                let ghost v = rec;
                self.users.insert(i, rec);
                proof {
                    assert(self.users() =~= s.update(i as int, v)) by {
                        assert(self.users() =~= s.remove(i as int).insert(i as int, v));
                        assert forall|j: int|
                            0 <= j < s.len() implies s.remove(i as int).insert(i as int, v)[j]
                            == s.update(i as int, v)[j] by {
                            if j < i as int {
                                assert(s.remove(i as int)[j] == s[j]);
                            } else if j > i as int {
                                assert(s.remove(i as int).insert(i as int, v)[j] == s.remove(
                                    i as int,
                                )[j - 1]);
                                assert(s.remove(i as int)[j - 1] == s[j]);
                            }
                        };
                    };
                    assert(self.users()[i as int].name@ == username@);
                    let c = choose|c: int|
                        0 <= c < self.users().len() && self.users()[c].name@ == username@;
                    assert(c == i as int);
                    assert forall|i2: int|
                        0 <= i2 < self.keys().len() implies 1 <= (#[trigger] self.keys()[i2]).id
                        < self.next_key_id && exists|j: int|
                        0 <= j < self.users().len() && (#[trigger] self.users()[j]).id
                            == self.keys()[i2].user_id by {
                        assert(self.keys()[i2] == old(self).keys()[i2]);
                        assert(1 <= old(self).keys()[i2].id < old(self).next_key());
                        let j = choose|j: int|
                            0 <= j < old(self).users().len() && (#[trigger] old(self).users()[j]).id
                                == old(self).keys()[i2].user_id;
                        assert(self.users()[j].id == self.keys()[i2].user_id);
                    };
                }
                Ok(())
            },
            None => {
                if self.next_user_id == i32::MAX {
                    return Err(Error::new(ErrorKind::InternalError, "No identifiers left"));
                }
                let ghost s = self.users();
                let id: i32 = self.next_user_id;
                let rec = User { id, name: username.to_owned(), hashed_password: hashed };
                let ghost v = rec;
                self.users.push(rec);
                self.next_user_id = id + 1;
                proof {
                    assert(self.users() =~= s.push(v));
                    assert forall|j: int| 0 <= j < s.len() implies self.users()[j] == s[j] by {};
                    assert(self.users()[s.len() as int] == v);
                    assert(self.users()[s.len() as int].name@ == username@);
                    let c = choose|c: int|
                        0 <= c < self.users().len() && self.users()[c].name@ == username@;
                    assert(c == s.len() as int);
                    assert forall|i2: int|
                        0 <= i2 < self.keys().len() implies 1 <= (#[trigger] self.keys()[i2]).id
                        < self.next_key_id && exists|j: int|
                        0 <= j < self.users().len() && (#[trigger] self.users()[j]).id
                            == self.keys()[i2].user_id by {
                        assert(self.keys()[i2] == old(self).keys()[i2]);
                        assert(1 <= old(self).keys()[i2].id < old(self).next_key());
                        let j = choose|j: int|
                            0 <= j < old(self).users().len() && (#[trigger] old(self).users()[j]).id
                                == old(self).keys()[i2].user_id;
                        assert(self.users()[j].id == self.keys()[i2].user_id);
                    };
                }
                Ok(())
            },
        }
    }

    /// Update the password for a user. If the user does not exist, it will be created.
    pub fn set_password(&mut self, username: &str, password: &str) -> (r: Result<(), Error>)
        requires
            old(self).wf(),
        ensures
            final(self).wf(),
            final(self).keys() == old(self).keys(),
            match r {
                Ok(_) => {
                    &&& has_user(final(self).users(), username@)
                    &&& argon2_verifies(
                        user_named(final(self).users(), username@).hashed_password@,
                        password@,
                    )
                    &&& forall|j: int|
                        0 <= j < old(self).users().len() && old(self).users()[j].name@ != username@
                            ==> final(self).users()[j] == old(self).users()[j]
                },
                Err(e) => *final(self) == *old(self) && e.spec_kind() == ErrorKind::InternalError,
            },
    {
        let hashed = match hash_password(password) {
            Ok(h) => h,
            Err(_) => {
                return Err(Error::new(ErrorKind::InternalError, "Password hashing failed"));
            },
        };
        self.update_user(username, hashed)
    }

    /// Delete a user and the API keys owned by it. Deleting an absent
    /// user is a no-op.
    pub fn delete_user(&mut self, username: &str) -> (r: Result<(), Error>)
        requires
            old(self).wf(),
        ensures
            final(self).wf(),
            r is Ok,
            !has_user(final(self).users(), username@),
            forall|u: User|
                final(self).users().contains(u) <==> (old(self).users().contains(u) && u.name@
                    != username@),
            forall|k: ApiKey|
                final(self).keys().contains(k) <==> (old(self).keys().contains(k) && !(exists|
                    j: int,
                |
                    0 <= j < old(self).users().len() && (#[trigger] old(self).users()[j]).name@
                        == username@ && old(self).users()[j].id == k.user_id)),
    {
        match self.find_user(username) {
            Some(i) => {
                let uid: i32 = self.users[i].id;
                proof {
                    let c = choose|c: int|
                        0 <= c < self.users().len() && self.users()[c].name@ == username@;
                    assert(c == i as int);
                }
                self.remove_keys_of(uid);
                proof {
                    assert forall|k: int|
                        0 <= k < self.keys().len() implies (#[trigger] self.keys()[k]).user_id
                        != uid by {
                        assert(self.keys().contains(self.keys()[k]));
                    };
                }
                self.remove_user_at(i, uid);
            },
            None => {
                proof {
                    assert forall|u: User|
                        self.users().contains(u) implies u.name@ != username@ by {
                        let j = choose|j: int| 0 <= j < self.users().len() && self.users()[j] == u;
                    };
                }
            },
        }
        Ok(())
    }

    /// Remove every key owned by the user with this identifier.
    fn remove_keys_of(&mut self, uid: i32)
        requires
            old(self).wf(),
        ensures
            final(self).wf(),
            final(self).users() == old(self).users(),
            final(self).next_user() == old(self).next_user(),
            final(self).next_key() == old(self).next_key(),
            forall|k: ApiKey|
                final(self).keys().contains(k) <==> (old(self).keys().contains(k) && k.user_id
                    != uid),
    {
        let ghost all = self.keys();
        let n: usize = self.keys.len();
        let mut out: Vec<ApiKey> = Vec::new();
        let mut i: usize = 0;
        while i < n
            invariant
                i <= n,
                n == self.keys().len(),
                self.keys() == all,
                forall|k: ApiKey|
                    #[trigger] out@.contains(k) ==> all.contains(k) && k.user_id != uid,
                forall|j: int|
                    0 <= j < i && (#[trigger] all[j]).user_id != uid ==> out@.contains(all[j]),
            decreases n - i,
        {
            if self.keys[i].user_id != uid {
                let rec = ApiKey {
                    id: self.keys[i].id,
                    key: self.keys[i].key.clone(),
                    user_id: self.keys[i].user_id,
                };
                let ghost pre = out@;
                proof {
                    assert(rec == all[i as int]);
                }
                out.push(rec);
                proof {
                    assert(out@ == pre.push(all[i as int]));
                    assert(out@[pre.len() as int] == all[i as int]);
                    assert(all.contains(all[i as int]));
                    assert forall|k: ApiKey|
                        #[trigger] out@.contains(k) implies all.contains(k) && k.user_id
                        != uid by {
                        let p = choose|p: int| 0 <= p < out@.len() && out@[p] == k;
                        if p < pre.len() {
                            assert(pre[p] == k);
                            assert(pre.contains(k));
                        } else {
                            assert(k == all[i as int]);
                        }
                    };
                    assert forall|j: int|
                        0 <= j < i + 1 && (#[trigger] all[j]).user_id != uid implies out@.contains(
                        all[j]) by {
                        if j < i {
                            assert(pre.contains(all[j]));
                            let p = choose|p: int| 0 <= p < pre.len() && pre[p] == all[j];
                            assert(out@[p] == all[j]);
                        }
                    };
                }
            }
            i = i + 1;
        }
        self.keys = out;
        proof {
            assert forall|k: ApiKey|
                self.keys().contains(k) <==> (all.contains(k) && k.user_id != uid) by {
                if all.contains(k) && k.user_id != uid {
                    let j = choose|j: int| 0 <= j < all.len() && all[j] == k;
                }
            };
            assert forall|i2: int|
                0 <= i2 < self.keys().len() implies 1 <= (#[trigger] self.keys()[i2]).id
                < self.next_key_id && exists|j: int|
                0 <= j < self.users().len() && (#[trigger] self.users()[j]).id
                    == self.keys()[i2].user_id by {
                assert(self.keys().contains(self.keys()[i2]));
                let oj = choose|oj: int| 0 <= oj < all.len() && all[oj] == self.keys()[i2];
                assert(old(self).keys()[oj] == self.keys()[i2]);
                assert(1 <= old(self).keys()[oj].id < old(self).next_key());
                let ju = choose|ju: int|
                    0 <= ju < old(self).users().len() && (#[trigger] old(self).users()[ju]).id
                        == old(self).keys()[oj].user_id;
                assert(self.users()[ju].id == self.keys()[i2].user_id);
            };
        }
    }

    /// Remove the user at a position, all of whose keys are already gone.
    fn remove_user_at(&mut self, i: usize, uid: i32)
        requires
            old(self).wf(),
            i < old(self).users().len(),
            old(self).users()[i as int].id == uid,
            forall|k: int| 0 <= k < old(self).keys().len() ==> old(self).keys()[k].user_id != uid,
        ensures
            final(self).wf(),
            final(self).keys() == old(self).keys(),
            forall|u: User|
                final(self).users().contains(u) <==> (old(self).users().contains(u) && u
                    != old(self).users()[i as int]),
            !has_user(final(self).users(), old(self).users()[i as int].name@),
    {
        let ghost s = self.users();
        let _removed = self.users.remove(i);
        proof {
            let t = self.users();
            assert forall|u: User| t.contains(u) <==> (s.contains(u) && u != s[i as int]) by {
                if t.contains(u) {
                    let p = choose|p: int| 0 <= p < t.len() && t[p] == u;
                    if p < i as int {
                        assert(s[p] == u);
                    } else {
                        assert(s[p + 1] == u);
                    }
                    if u == s[i as int] {
                        let q: int = if p < i as int {
                            p
                        } else {
                            p + 1
                        };
                        assert(s[q] == s[i as int] && q != i as int);
                        assert(s[q].id == s[i as int].id);
                        assert(false);
                    }
                }
                if s.contains(u) && u != s[i as int] {
                    let p = choose|p: int| 0 <= p < s.len() && s[p] == u;
                    if p < i as int {
                        assert(t[p] == u);
                    } else {
                        assert(p > i as int);
                        assert(t[p - 1] == u);
                    }
                }
            };
            assert forall|p: int, q: int| 0 <= p < q < t.len() implies t[p].name@ != t[q].name@
                && t[p].id != t[q].id by {
                let op: int = if p < i as int {
                    p
                } else {
                    p + 1
                };
                let oq: int = if q < i as int {
                    q
                } else {
                    q + 1
                };
                assert(t[p] == s[op] && t[q] == s[oq]);
            };
            assert forall|p: int|
                0 <= p < t.len() implies 1 <= (#[trigger] t[p]).id < self.next_user_id
                && is_phc_hash(t[p].hashed_password@) by {
                let op: int = if p < i as int {
                    p
                } else {
                    p + 1
                };
                assert(t[p] == s[op]);
            };
            assert forall|k: int|
                0 <= k < self.keys().len() implies 1 <= (#[trigger] self.keys()[k]).id
                < self.next_key_id && exists|j: int|
                0 <= j < t.len() && (#[trigger] t[j]).id == self.keys()[k].user_id by {
                assert(self.keys()[k] == old(self).keys()[k]);
                assert(old(self).keys()[k].user_id != uid);
                assert(1 <= old(self).keys()[k].id < old(self).next_key());
                let j = choose|j: int|
                    0 <= j < s.len() && (#[trigger] s[j]).id == self.keys()[k].user_id;
                assert(j != i as int);
                let nj: int = if j < i as int {
                    j
                } else {
                    j - 1
                };
                assert(t[nj] == s[j]);
            };
            if has_user(t, s[i as int].name@) {
                let p = choose|p: int| 0 <= p < t.len() && t[p].name@ == s[i as int].name@;
                assert(t.contains(t[p]));
                let op = choose|op: int| 0 <= op < s.len() && s[op] == t[p];
                assert(op != i as int);
            }
        }
    }

    /// Create and store a fresh API key for the user; the key text is
    /// returned and recorded.
    pub fn generate_api_key(&mut self, username: &str) -> (r: Result<String, Error>)
        requires
            old(self).wf(),
        ensures
            final(self).wf(),
            final(self).users() == old(self).users(),
            (r matches Err(e) && e.spec_kind() == ErrorKind::NotFound <==> !has_user(
                old(self).users(),
                username@,
            )),
            match r {
                Ok(k) => {
                    &&& k@.len() == 64
                    &&& final(self).keys() =~= old(self).keys().push(
                        ApiKey {
                            id: old(self).next_key(),
                            key: k,
                            user_id: user_named(old(self).users(), username@).id,
                        },
                    )
                },
                Err(e) => final(self).keys() == old(self).keys() && (e.spec_kind()
                    == ErrorKind::NotFound || e.spec_kind() == ErrorKind::InternalError),
            },
    {
        let i = match self.find_user(username) {
            Some(i) => i,
            None => {
                return Err(Error::new(ErrorKind::NotFound, "User not found"));
            },
        };
        proof {
            let c = choose|c: int| 0 <= c < self.users().len() && self.users()[c].name@ == username@;
            assert(c == i as int);
        }
        if self.next_key_id == i32::MAX {
            return Err(Error::new(ErrorKind::InternalError, "No identifiers left"));
        }
        let first = match os_random_bytes() {
            Ok(b) => b,
            Err(_) => {
                return Err(Error::new(ErrorKind::InternalError, "No random bytes available"));
            },
        };
        let second = match os_random_bytes() {
            Ok(b) => b,
            Err(_) => {
                return Err(Error::new(ErrorKind::InternalError, "No random bytes available"));
            },
        };
        let mut material: Vec<u8> = Vec::new();
        material.extend_from_slice(first.as_slice());
        material.extend_from_slice(second.as_slice());
        let key: String = to_hex(material.as_slice());
        let uid: i32 = self.users[i].id;
        let id: i32 = self.next_key_id;
        let rec = ApiKey { id, key: key.clone(), user_id: uid };
        self.keys.push(rec);
        self.next_key_id = id + 1;
        proof {
            let ghost t = self.keys();
            assert forall|k: int|
                0 <= k < t.len() implies 1 <= (#[trigger] t[k]).id < self.next_key_id && exists|
                j: int,
            |
                0 <= j < self.users().len() && (#[trigger] self.users()[j]).id == t[k].user_id by {
                if k < t.len() - 1 {
                    assert(t[k] == old(self).keys()[k]);
                    assert(1 <= old(self).keys()[k].id < old(self).next_key());
                    let ju = choose|ju: int|
                        0 <= ju < old(self).users().len() && (#[trigger] old(self).users()[ju]).id
                            == old(self).keys()[k].user_id;
                    assert(self.users()[ju].id == t[k].user_id);
                } else {
                    assert(t[k].user_id == self.users()[i as int].id);
                }
            };
        }
        Ok(key)
    }

    /// The name of the user owning this API key, or `None` for an unknown
    /// key.
    pub fn get_user_from_api_key(&self, api_key: &str) -> (r: Result<Option<String>, Error>)
        requires
            self.wf(),
        ensures
            match r {
                Ok(found) => match found {
                    Some(name) => exists|i: int, j: int|
                        0 <= i < self.keys().len() && 0 <= j < self.users().len()
                            && (#[trigger] self.keys()[i]).key@ == api_key@
                            && (#[trigger] self.users()[j]).id == self.keys()[i].user_id && name@
                            == self.users()[j].name@,
                    None => forall|i: int|
                        0 <= i < self.keys().len() ==> (#[trigger] self.keys()[i]).key@ != api_key@,
                },
                Err(_) => false,
            },
    {
        let needle: String = api_key.to_owned();
        let n: usize = self.keys.len();
        let mut i: usize = 0;
        while i < n
            invariant
                i <= n,
                n == self.keys().len(),
                self.wf(),
                needle@ == api_key@,
                forall|k: int| 0 <= k < i ==> (#[trigger] self.keys()[k]).key@ != api_key@,
            decreases n - i,
        {
            if self.keys[i].key == needle {
                let uid: i32 = self.keys[i].user_id;
                let m: usize = self.users.len();
                let mut j: usize = 0;
                proof {
                    assert(1 <= self.keys()[i as int].id);
                    assert(self.keys()[i as int].user_id == uid);
                }
                while j < m
                    invariant
                        j <= m,
                        m == self.users().len(),
                        i < self.keys().len(),
                        self.keys()[i as int].key@ == api_key@,
                        self.keys()[i as int].user_id == uid,
                        exists|w: int|
                            0 <= w < self.users().len() && (#[trigger] self.users()[w]).id == uid,
                        forall|k: int| 0 <= k < j ==> (#[trigger] self.users()[k]).id != uid,
                    decreases m - j,
                {
                    if self.users[j].id == uid {
                        return Ok(Some(self.users[j].name.clone()));
                    }
                    j = j + 1;
                }
                proof {
                    assert(false);
                }
            }
            i = i + 1;
        }
        Ok(None)
    }

    /// The names of all users, in the order the users were created.
    pub fn list_users(&self) -> (r: Result<Vec<String>, Error>)
        requires
            self.wf(),
        ensures
            match r {
                Ok(v) => v@.len() == self.users().len() && forall|i: int|
                    0 <= i < v@.len() ==> (#[trigger] v@[i])@ == self.users()[i].name@,
                Err(_) => false,
            },
    {
        let n: usize = self.users.len();
        let mut out: Vec<String> = Vec::new();
        let mut i: usize = 0;
        while i < n
            invariant
                i <= n,
                n == self.users().len(),
                out@.len() == i,
                forall|j: int| 0 <= j < i ==> (#[trigger] out@[j])@ == self.users()[j].name@,
            decreases n - i,
        {
            out.push(self.users[i].name.clone());
            i = i + 1;
        }
        Ok(out)
    }
}

} // verus!
