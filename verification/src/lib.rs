//! Attribute-based access control core: an s-expression policy language,
//! its evaluator, policy storage, and a message-authorization gate.

pub mod attributes;
pub mod codec;
pub mod commands;
pub mod env;
pub mod error;
pub mod eval;
pub mod expr;
pub mod lmdb;
pub mod mem;
pub mod parser;
pub mod policy;
pub mod policy_access_control;
pub mod strings;
pub mod types;

pub use env::Env;
pub use error::EvalError;
pub use error::ParseError;
pub use eval::eval;
pub use expr::Expr;
pub use lmdb::LmdbStorage;
pub use mem::Memory;
pub use parser::parse;
pub use policy::Policy;
pub use policy::PolicyList;
pub use policy_access_control::PolicyAccessControl;
pub use types::Action;
pub use types::Resource;
pub use types::Subject;
