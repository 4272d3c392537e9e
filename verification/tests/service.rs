use automaton_router::model::{
    after_count, after_insert, first_row, is_duplicate_key_code, unknown_id, AfterInsert,
    AppError, Inserted, Role, Roles, User,
};
use automaton_router::response::{Error, ErrorKind, ErrorType, HTTPResult};

#[test]
fn unknown_id_is_minus_one() {
    assert_eq!(unknown_id(), -1);
}

#[test]
fn resources_hold_their_fields() {
    let role = Role { id: unknown_id(), name: "admin".to_string() };
    let copy = role.clone();
    assert_eq!((copy.id, copy.name.as_str()), (-1, "admin"));
    let roles = Roles { roles: vec![role] };
    assert_eq!(roles.roles.len(), 1);
    let user = User {
        id: 3,
        name: "ann".to_string(),
        password: "secret".to_string(),
        hashed_password: String::new(),
    };
    assert_eq!(user.clone().password, "secret");
}

#[test]
fn first_row_is_returned() {
    let rows = vec![
        Role { id: 4, name: "a".to_string() },
        Role { id: 5, name: "b".to_string() },
    ];
    let role = first_row(rows).unwrap();
    assert_eq!((role.id, role.name.as_str()), (4, "a"));
}

#[test]
fn no_row_is_role_not_found() {
    assert_eq!(first_row(Vec::<Role>::new()).err(), Some(AppError::RoleNotFound));
}

#[test]
fn duplicate_key_code() {
    assert!(is_duplicate_key_code("23505"));
    assert!(!is_duplicate_key_code("23503"));
    assert!(!is_duplicate_key_code(""));
    assert!(!is_duplicate_key_code("235050"));
}

#[test]
fn steps_of_creating_a_role() {
    assert_eq!(after_insert(Inserted::Done), AfterInsert::ReturnRole);
    assert_eq!(after_insert(Inserted::Failed { duplicate_key: true }), AfterInsert::CountName);
    assert_eq!(after_insert(Inserted::Failed { duplicate_key: false }), AfterInsert::ReturnFailure);
    assert_eq!(after_count(1), AppError::RoleNameAlreadyExists);
    assert_eq!(after_count(7), AppError::RoleNameAlreadyExists);
    assert_eq!(after_count(0), AppError::Sqlx);
    assert_eq!(after_count(-1), AppError::Sqlx);
}

#[test]
fn error_constructors() {
    let client = Error::new_client_error(7, "seven");
    assert_eq!(client.error_type, ErrorType::ClientError);
    assert_eq!((client.code, client.reason, client.description.clone()), (7, "seven", None));
    let server = Error::new_server_error(8, "eight");
    assert_eq!(server.error_type, ErrorType::ServerError);
    assert_eq!((server.code, server.reason, server.description.clone()), (8, "eight", None));
    let described = server.with_description("more");
    assert_eq!(described.error_type, ErrorType::ServerError);
    assert_eq!(
        (described.code, described.reason, described.description.as_deref()),
        (8, "eight", Some("more"))
    );
    assert_eq!(server.description, None);
}

#[test]
fn error_catalogue() {
    let expected = [
        (ErrorKind::Internal, ErrorType::ServerError, 100001, "internal"),
        (ErrorKind::RoleNotFound, ErrorType::ClientError, 200001, "role not found"),
        (
            ErrorKind::RoleNameAlreadyExists,
            ErrorType::ClientError,
            200002,
            "role name is already exists",
        ),
        (ErrorKind::InvalidArgument, ErrorType::ClientError, 30001, "invalid argument"),
        (ErrorKind::NotFound, ErrorType::ClientError, 30002, "not found"),
        (ErrorKind::FailedToReadRequest, ErrorType::ClientError, 30003, "failed to read request"),
        (ErrorKind::FailedToDecode, ErrorType::ClientError, 30004, "failed to decode"),
    ];
    for (kind, error_type, code, reason) in expected {
        let error = kind.error();
        assert_eq!(error.error_type, error_type);
        assert_eq!(error.code, code);
        assert_eq!(error.reason, reason);
        assert_eq!(error.description, None);
    }
}

#[test]
fn status_of_an_answer() {
    let body: HTTPResult<&str> = HTTPResult::Success("{}");
    assert_eq!(body.status(), 200);
    let client: HTTPResult<&str> = HTTPResult::Error(ErrorKind::NotFound.error());
    assert_eq!(client.status(), 400);
    let server: HTTPResult<&str> = HTTPResult::Error(ErrorKind::Internal.error());
    assert_eq!(server.status(), 500);
}

#[test]
fn failures_of_the_application_are_reported() {
    let expected = [
        (AppError::Sqlx, 500, 100001, "internal"),
        (AppError::Migrate, 500, 100001, "internal"),
        (AppError::ConnectPostgres, 500, 100001, "internal"),
        (AppError::RoleNotFound, 400, 200001, "role not found"),
        (AppError::RoleNameAlreadyExists, 400, 200002, "role name is already exists"),
    ];
    for (failure, status, code, reason) in expected {
        let result: HTTPResult<()> = failure.to_http_result("what happened");
        assert_eq!(result.status(), status);
        match result {
            HTTPResult::Error(error) => {
                assert_eq!(error.code, code);
                assert_eq!(error.reason, reason);
                assert_eq!(error.description.as_deref(), Some("what happened"));
            }
            HTTPResult::Success(_) => panic!("no error"),
        }
    }
}
