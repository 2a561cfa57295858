use tow_dispatch::auth_handler::{
    UserProfileImageQueryParams, ValidateSessionQueryParams, ValidationResponse,
    DEFAULT_IMAGE_SIZE,
};

#[test]
fn a_valid_session_answers_valid() {
    let response = ValidationResponse::from_check::<String>(Some(Ok(true)));
    assert!(response.is_valid);
}

#[test]
fn an_invalid_session_answers_invalid() {
    let response = ValidationResponse::from_check::<String>(Some(Ok(false)));
    assert!(!response.is_valid);
}

#[test]
fn a_failed_check_answers_invalid() {
    let response = ValidationResponse::from_check(Some(Err("store down".to_string())));
    assert!(!response.is_valid);
}

#[test]
fn a_missing_token_answers_invalid() {
    let query = ValidateSessionQueryParams { session_token: None };
    assert!(query.session_token.is_none());
    let response = ValidationResponse::from_check::<String>(None);
    assert!(!response.is_valid);
}

#[test]
fn image_size_defaults_to_five_hundred() {
    assert_eq!(DEFAULT_IMAGE_SIZE, 500);
    let query = UserProfileImageQueryParams { w: None, h: None };
    assert_eq!(query.width(), 500);
    assert_eq!(query.height(), 500);
}

#[test]
fn a_requested_image_size_is_kept() {
    let query = UserProfileImageQueryParams { w: Some(120), h: None };
    assert_eq!(query.width(), 120);
    assert_eq!(query.height(), 500);
    let query = UserProfileImageQueryParams { w: Some(-1), h: Some(0) };
    assert_eq!(query.width(), -1);
    assert_eq!(query.height(), 0);
}
