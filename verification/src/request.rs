pub mod generic_request;
pub mod request_input;
