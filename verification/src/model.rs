//! Settings of the service and the answer it gives to a request.
use vstd::prelude::*;
use vstd::string::*;

verus! {

/// Where the service finds its files, and how it runs.
#[derive(Debug, PartialEq, Eq)]
pub struct Config {
    pub rwr_profile_folder_path: String,
    pub server_data_folder_path: String,
    pub server_log_folder_path: String,
    pub server_upload_temp_folder_path: String,
    pub server_hourly_request: bool,
    pub port: u32,
}

/// The outcome of a request, as the caller is told it.
#[derive(Debug, PartialEq, Eq)]
pub struct ResponseJson {
    pub status: i32,
    pub code: i32,
    pub message: String,
}

/// What a `ResponseJson` is to contracts.
pub struct ResponseJsonView {
    pub status: i32,
    pub code: i32,
    pub message: Seq<char>,
}

impl View for ResponseJson {
    type V = ResponseJsonView;

    open spec fn view(&self) -> ResponseJsonView {
        ResponseJsonView { status: self.status, code: self.code, message: self.message@ }
    }
}

impl Default for ResponseJson {
    fn default() -> (r: Self)
        ensures
            r@ == (ResponseJsonView { status: 200, code: 0, message: "ok"@ }),
    {
        ResponseJson { status: 200, code: 0, message: String::from_str("ok") }
    }
}

impl ResponseJson {
    /// A success with the given message.
    pub fn new(msg: &str) -> (r: Self)
        ensures
            r@ == (ResponseJsonView { status: 200, code: 0, message: msg@ }),
    {
        let mut new_self = Self::default();
        new_self.message = String::from_str(msg);
        new_self
    }

    /// A failure with the given message, whatever `self` holds.
    pub fn set_err_msg(&self, msg: &str) -> (r: Self)
        ensures
            r@ == (ResponseJsonView { status: 400, code: -1i32, message: msg@ }),
    {
        ResponseJson { status: 400, code: -1, message: String::from_str(msg) }
    }

    /// A success with the given message, whatever `self` holds.
    pub fn set_successful_msg(&self, msg: &str) -> (r: Self)
        ensures
            r@ == (ResponseJsonView { status: 200, code: 0, message: msg@ }),
    {
        ResponseJson { status: 200, code: 0, message: String::from_str(msg) }
    }
}

} // verus!
