//! Metadata, workflow and synchronisation logic of the ADB Studio music annotation tool.
pub mod text;
pub mod json;
pub mod paths;
pub mod sync;
pub mod server;
pub mod metadata;
pub mod file_system;
pub mod settings;
pub mod audio;
pub mod conversion;
pub mod comfyui;
