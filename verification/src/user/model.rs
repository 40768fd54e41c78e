//! Accounts and the requests that concern them.
use vstd::prelude::*;

verus! {

/// A request to log in.
#[derive(Debug, PartialEq, Eq)]
pub struct LoginReq {
    pub username: String,
    pub password: String,
}

/// A request for a new account.
#[derive(Debug, PartialEq, Eq)]
pub struct RegisterReq {
    pub username: String,
    pub password: String,
}

/// An account.
#[derive(Debug, PartialEq, Eq)]
pub struct User {
    pub name: String,
    pub user_id: u64,
    pub password: String,
    pub admin: u8,
}

/// What a `User` is to contracts.
pub struct UserView {
    pub name: Seq<char>,
    pub user_id: u64,
    pub password: Seq<char>,
    pub admin: u8,
}

/// The account store.
#[derive(Debug, PartialEq, Eq)]
pub struct Users {
    pub user_list: Vec<User>,
}

impl View for User {
    type V = UserView;

    open spec fn view(&self) -> UserView {
        UserView {
            name: self.name@,
            user_id: self.user_id,
            password: self.password@,
            admin: self.admin,
        }
    }
}

impl View for Users {
    type V = Seq<UserView>;

    open spec fn view(&self) -> Seq<UserView> {
        self.user_list@.map_values(|u: User| u@)
    }
}

impl Default for User {
    fn default() -> (r: Self)
        ensures
            r@ == (UserView {
                name: Seq::<char>::empty(),
                user_id: 0,
                password: Seq::<char>::empty(),
                admin: 0,
            }),
    {
        User { name: String::new(), password: String::new(), user_id: 0, admin: 0 }
    }
}

} // verus!
