//! JSON Schema validation (drafts 4, 6, 7, 2019-09 and 2020-12) with
//! contracts proved by Verus: schema documents are compiled into
//! `schema::Schemas`, against which JSON values are validated; errors
//! come with their locations, messages and output forms.

pub mod text;
pub mod util;
pub mod json;
pub mod formats;
pub mod outside;
pub mod draft;
pub mod schema;
pub mod errors;
pub mod validator;
pub mod output;
pub mod messages;
pub mod root;
pub mod compiler;
pub mod loading;
pub mod laws;
