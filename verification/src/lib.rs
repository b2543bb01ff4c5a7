//! RGBA8 frame processing: the blur and mirror filters that the plugins apply,
//! the checks the plugin loader makes, and the error type of the processor.

pub mod frame;
pub mod blur;
pub mod mirror;
pub mod error;
pub mod text;
pub mod plugin_loader;
