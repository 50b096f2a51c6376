//! The user domain's data-access scaffolding. Its query, hashing and
//! storage behaviour lives outside this crate with the database; only the
//! shapes the rest of the code names are here.

use vstd::prelude::*;

verus! {

pub struct UserRepo;

impl UserRepo {
    pub fn new() -> UserRepo {
        UserRepo
    }
}

pub struct UserService {
    pub repo: UserRepo,
}

impl UserService {
    pub fn new(repo: UserRepo) -> UserService {
        UserService { repo }
    }
}

pub struct UserController;

} // verus!
