mod errors;

pub mod document;
pub mod post;
pub mod template;
pub mod text;
pub mod util;

pub use errors::PipelineError;
