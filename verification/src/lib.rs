pub mod anki;
pub mod answer_code;
pub mod decode;
pub mod import;
pub mod index;
pub mod model;
pub mod paths;
pub mod pattern;
pub mod question;
pub mod slug;
pub mod sources;
pub mod startup;
pub mod text;
pub mod unicode;
