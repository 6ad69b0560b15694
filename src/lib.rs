//! A vault of interlinked notes: canonical paths, the `[[...]]` link
//! scanner, note ingestion with tags and links, link resolution, the link
//! graph and bounded local graphs around a note.

pub mod builder;
pub mod graph;
pub mod metadata;
pub mod note;
pub mod path;
pub mod site;
pub mod text;
pub mod vault;
pub mod wikilink;
