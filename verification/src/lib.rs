//! A small model of HTTP messages: reading a request off its text, and
//! writing the text of a response.

pub mod headers;
pub mod httprequest;
pub mod httpresponse;
pub mod text;
