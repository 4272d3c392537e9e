//! The resources of the service, the ways in which the application fails, and
//! what it decides from the answers of its database.

use vstd::prelude::*;

verus! {

/// The ID of a role or a user that has none yet.
pub fn unknown_id() -> (id: i32)
    ensures
        id == -1,
{
    -1
}

/// A role.
#[derive(Debug, Clone)]
pub struct Role {
    /// (Output only) The role's ID. Default value is `unknown_id()`.
    pub id: i32,
    /// The role's name.
    pub name: String,
}

/// A list of roles.
#[derive(Debug)]
pub struct Roles {
    /// The list of roles.
    pub roles: Vec<Role>,
}

/// A user.
#[derive(Debug, Clone)]
pub struct User {
    /// [Output only] The user's ID. Default value is `unknown_id()`.
    pub id: i32,
    /// The user's name.
    pub name: String,
    /// (Input only) The user's password.
    pub password: String,
    /// (Hidden by default) The user's hashed password.
    pub hashed_password: String,
}

/// The ways in which the application fails.
#[derive(Clone, Copy, Debug, PartialEq, Eq, Structural)]
pub enum AppError {
    /// The database failed.
    Sqlx,
    /// A migration failed.
    Migrate,
    /// The database could not be reached.
    ConnectPostgres,
    /// There is no role of the ID.
    RoleNotFound,
    /// Another role has the name.
    RoleNameAlreadyExists,
}

/// The one row among the rows found for an ID: the first row, or the failure
/// that there is no role of the ID.
pub fn first_row<T>(rows: Vec<T>) -> (result: Result<T, AppError>)
    ensures
        match result {
            Ok(row) => rows@.len() > 0 && row == rows@[0],
            Err(e) => rows@.len() == 0 && e == AppError::RoleNotFound,
        },
{
    let mut rows = rows;
    if rows.len() == 0 {
        Err(AppError::RoleNotFound)
    } else {
        Ok(rows.remove(0))
    }
}

/// The code with which the database reports that a key is there already.
pub open spec fn duplicate_key_code() -> Seq<char> {
    "23505"@
}

/// Whether a code of the database reports that a key is there already.
pub fn is_duplicate_key_code(code: &str) -> (duplicate: bool)
    ensures
        duplicate == (code@ == duplicate_key_code()),
{
    code.to_owned() == "23505".to_owned()
}

/// How the insertion of a new role ended.
#[derive(Clone, Copy, Debug, PartialEq, Eq, Structural)]
pub enum Inserted {
    /// The role is in the database.
    Done,
    /// The database refused, for a key that is there already or for another
    /// reason.
    Failed { duplicate_key: bool },
}

/// What follows the insertion of a new role.
#[derive(Clone, Copy, Debug, PartialEq, Eq, Structural)]
pub enum AfterInsert {
    /// The new role is returned.
    ReturnRole,
    /// The roles of the new role's name are counted.
    CountName,
    /// The failure of the insertion is returned.
    ReturnFailure,
}

/// What to do after the insertion of a new role. The names of roles are
/// unique: where the database refused for a key that is there already, a role
/// of the name may be there, and that is looked up.
pub fn after_insert(inserted: Inserted) -> (next: AfterInsert)
    ensures
        next == match inserted {
            Inserted::Done => AfterInsert::ReturnRole,
            Inserted::Failed { duplicate_key: true } => AfterInsert::CountName,
            Inserted::Failed { duplicate_key: false } => AfterInsert::ReturnFailure,
        },
{
    match inserted {
        Inserted::Done => AfterInsert::ReturnRole,
        Inserted::Failed { duplicate_key } => if duplicate_key {
            AfterInsert::CountName
        } else {
            AfterInsert::ReturnFailure
        },
    }
}

/// The failure to return once the roles of the new role's name are counted:
/// that the name is taken, where there is such a role, else the failure of the
/// insertion, which is the database's.
pub fn after_count(count: i64) -> (failure: AppError)
    ensures
        failure == if count > 0 {
            AppError::RoleNameAlreadyExists
        } else {
            AppError::Sqlx
        },
{
    if count > 0 {
        AppError::RoleNameAlreadyExists
    } else {
        AppError::Sqlx
    }
}

} // verus!
