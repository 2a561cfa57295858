//! The values that the session and profile-image endpoints read and answer
//! with, and the two decisions those endpoints make themselves.

use vstd::prelude::*;

verus! {

/// Width and height of a profile image when the request names none.
pub const DEFAULT_IMAGE_SIZE: i32 = 500;

/// Query of a session check: the token to check, if one was sent.
#[derive(Debug)]
pub struct ValidateSessionQueryParams {
    pub session_token: Option<String>,
}

/// Answer of a session check.
#[derive(Clone, Copy, Debug)]
pub struct ValidationResponse {
    pub is_valid: bool,
}

/// Query of a profile image: the wanted width and height, if given.
#[derive(Clone, Copy, Debug)]
pub struct UserProfileImageQueryParams {
    pub w: Option<i32>,
    pub h: Option<i32>,
}

impl ValidationResponse {
    /// The answer to a session check. `checked` is `None` when the request
    /// carried no token, else what the check of the token gave. Only a check
    /// that succeeded and found the session valid answers "valid".
    pub fn from_check<E>(checked: Option<Result<bool, E>>) -> (response: ValidationResponse)
        ensures
            response.is_valid == (checked == Some(Ok::<bool, E>(true))),
    {
        match checked {
            Some(Ok(is_valid)) => ValidationResponse { is_valid },
            Some(Err(_)) => ValidationResponse { is_valid: false },
            None => ValidationResponse { is_valid: false },
        }
    }
}

impl UserProfileImageQueryParams {
    /// The width to resize to: the requested one, or the default.
    pub fn width(&self) -> (width: i32)
        ensures
            width == match self.w {
                Some(w) => w,
                None => DEFAULT_IMAGE_SIZE,
            },
    {
        match self.w {
            Some(w) => w,
            None => DEFAULT_IMAGE_SIZE,
        }
    }

    /// The height to resize to: the requested one, or the default.
    pub fn height(&self) -> (height: i32)
        ensures
            height == match self.h {
                Some(h) => h,
                None => DEFAULT_IMAGE_SIZE,
            },
    {
        match self.h {
            Some(h) => h,
            None => DEFAULT_IMAGE_SIZE,
        }
    }
}

} // verus!
