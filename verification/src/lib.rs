//! A minimal textual HTTP request parser with a path-template matcher for
//! request routing, and a response value that serializes to wire format.
pub mod chars;
pub mod strmap;
pub mod path;
pub mod http_request;
pub mod http_response;

pub use http_response::HttpResponse;
pub use http_response::ResponseHandler;
pub use http_request::HttpRequest;
pub use http_request::ParseError;
pub use path::Path;
pub use strmap::StrMap;
