use vstd::prelude::*;
use crate::error::DataError;

verus! {

/// The credentials a user signs in with.
pub struct LoginInfo {
    pub email: String,
    pub password: String,
}

/// A registered user.
pub struct User {
    pub username: String,
    pub email: String,
    password: String,
}

/// The stored form of a password: the password itself.
fn hash_pass(pass: &String) -> (r: String)
    ensures
        r@ == pass@,
{
    pass.clone()
}

impl User {
    /// The user's name.
    pub closed spec fn username_spec(&self) -> Seq<char> {
        self.username@
    }

    /// The user's email address.
    pub closed spec fn email_spec(&self) -> Seq<char> {
        self.email@
    }

    /// The stored password.
    pub closed spec fn password_spec(&self) -> Seq<char> {
        self.password@
    }

    /// Makes a user from its fields; `password` is the stored form.
    pub fn new(username: String, email: String, password: String) -> (r: Self)
        ensures
            r.username_spec() == username@,
            r.email_spec() == email@,
            r.password_spec() == password@,
    {
        User { username, email, password }
    }

    /// Checks the password of `login_info` against this user's.
    pub fn validate_login_info(&self, login_info: &LoginInfo) -> (r: Result<(), DataError>)
        ensures
            r is Ok <==> login_info.password@ == self.password_spec(),
            r matches Err(e) ==> e == DataError::WrongPassword,
    {
        let hashed = hash_pass(&login_info.password);
        if hashed == self.password {
            Ok(())
        } else {
            Err(DataError::WrongPassword)
        }
    }
}

} // verus!
