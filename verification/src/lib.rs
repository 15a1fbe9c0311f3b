//! Extraction of named template components and the values that fill their slots.
//!
//! Template sources hold components: a marker line `::name` opens one, and the
//! lines up to the next marker line are its body. [`select_sources`] picks the
//! sources among the paths of a directory tree, [`parse_templates`] turns their
//! texts into one artifact for each component, and a [`TemplateItem`] is a
//! value for a slot of such an artifact.

pub mod component;
pub mod error;
pub mod extract;
pub mod globs;
pub mod item;
pub mod laws;
pub mod order;
pub mod parser;
pub mod text;

pub use component::{ComponentDefinition, Components};
pub use error::ExtractError;
pub use extract::{
    artifacts, conflict_report, parse_templates, Artifact, TemplateSource, TEMPLATE_PREFIX,
};
pub use globs::{build_globset, select_sources, TemplateGlobs};
pub use item::{att, val, TemplateItem};
pub use parser::parse_template_source;
