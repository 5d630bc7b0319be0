//! Retargets migrated text: documentation names and product terms of another agent become the
//! names used here, except where they are literal references (paths, URIs, link destinations,
//! dotted identifiers).

pub mod bytes;
pub mod uri;
pub mod markdown;
pub mod reference;
pub mod text;
pub mod replace;
pub mod layout;
pub mod profile;
pub mod results;
pub mod laws;
pub mod meaning;
pub mod lines;

pub use profile::RewriteProfile;
