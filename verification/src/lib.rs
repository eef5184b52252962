//! Message framing for streamed web responses.
//!
//! A body arrives in chunks of bytes, cut anywhere. [`WebStream`] decodes them, splits the text
//! into messages as its [`StreamMode`] says, and hands the messages out one by one. It does no
//! input or output itself: it takes [`StreamEvent`]s in and answers each with the
//! [`StreamAction`] to perform.

pub mod decode;
pub mod delimited;
pub mod error;
pub mod json_array;
pub mod json_tokens;
pub mod response;
pub mod run;
pub mod text;
pub mod web_stream;

pub use decode::{decode_chunk, InvalidUtf8};
pub use delimited::process_buff_string_delimited;
pub use error::Error;
pub use json_array::new_with_pretty_json_array;
pub use response::BuffResponse;
pub use web_stream::{StreamAction, StreamEvent, StreamMode, WebStream};
