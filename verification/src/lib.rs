//! A data file is a flat sequence of `identifier = value;` statements, where a value is a
//! boolean, an integer, a set of integers, or an array of one or two dimensions of these. It
//! is represented in the [`DataFile`] struct, which can be parsed from a source with the
//! [`parse`] function and is then asked for a value by its name and expected type.
//!
//! # Example
//! ```
//! let source = r#"
//! int_param = 5;
//! bool_param = true;
//! array_1d = [1, 3, 5];
//! array_2d = [| true, false
//!             | false, true
//!             | false, false |];
//! "#;
//!
//! let data_file = dzn_rs::parse::<i32>(source.as_bytes()).expect("valid dzn");
//!
//! assert_eq!(Some(&5), data_file.get::<i32>("int_param"));
//! assert_eq!(Some(&true), data_file.get::<bool>("bool_param"));
//!
//! let array_1d = data_file.array_1d::<i32>("array_1d", 3)
//!     .expect("key exists with requested length");
//! assert_eq!(&[3], array_1d.shape());
//! for (idx, value) in [1, 3, 5].iter().enumerate() {
//!     assert_eq!(Some(value), array_1d.get([idx]));
//! }
//!
//! let array_2d = data_file.array_2d::<bool>("array_2d", [3, 2])
//!     .expect("key exists with requested shape");
//! assert_eq!(&[3, 2], array_2d.shape());
//!
//! assert_eq!(Some(&true), array_2d.get([0, 0]));
//! assert_eq!(Some(&false), array_2d.get([0, 1]));
//! assert_eq!(Some(&false), array_2d.get([1, 0]));
//! assert_eq!(Some(&true), array_2d.get([1, 1]));
//! assert_eq!(Some(&false), array_2d.get([2, 0]));
//! assert_eq!(Some(&false), array_2d.get([2, 1]));
//! ```
//!
//! The modules:
//! - [`grammar`] says what a text stands for, as functions on its characters;
//! - [`parser`] reads a text as the grammar says;
//! - [`value`] and [`ast`] hold what was read, and [`numbers`] the integer types;
//! - [`laws`] proves what holds of the grammar whatever the text;
//! - [`writing`] says how values are written, and proves that what is written is read back.

pub mod ast;
pub mod error;
pub mod grammar;
pub mod laws;
pub mod numbers;
pub mod parser;
pub mod value;
pub mod writing;

pub use ast::{Array, DataFile};
pub use error::{DznParseError, SyntaxElement};
pub use numbers::Integer;
pub use parser::{parse, parse_chars, parse_str};
pub use value::{GetValue, ShapedArray, Value, ValueArray};
