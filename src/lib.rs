//! Reading OpenSSL-style password arguments.
//!
//! An argument names where a secret comes from:
//!
//! * `pass:password`: the secret is `password` itself;
//! * `env:var`: the secret is the value of the environment variable `var`;
//! * `file:pathname`: the secret is the next line of the file `pathname`;
//! * `fd:number`: the secret is the next line read from descriptor `number`;
//! * `stdin`: the secret is the next line of the standard input;
//! * `prompt[:text]`: the secret is asked of the user, showing `text`, or
//!   `Password: ` when no text is given.
//!
//! Everything after the first `:` is taken verbatim. Several arguments that
//! name one file, descriptor or the standard input read its successive lines,
//! in the order in which they are read; two spellings of one file's path name
//! one source once the path is made canonical.
//!
//! [`Source::parse`] reads an argument, [`Source::to_arg_string`] writes a
//! source back as one, and a [`Reader`] decides, for each source, what is left
//! to do to obtain the secret and which open stream to read it from.
pub mod decimal;
pub mod reader;
pub mod source;
pub mod text;

pub use decimal::{format_i32, parse_i32};
pub use reader::{Reader, Step};
pub use source::{Error, Source, VarError};
pub use text::{split_first_colon, text_eq, trim_line};
