//! The library's error types. The surrounding program converts them into
//! its own displayable errors; here they carry plain values only.
use vstd::prelude::*;

verus! {

/// Errors of the mesh-loading and build pipeline.
#[derive(Debug, PartialEq, Eq)]
pub enum EngineError {
    /// The model-config file was not found; carries the path.
    ModelConfigNotFound(String),
    /// A model directory named by the config was not found.
    ModelDirNotFound(String),
    /// A path named as a model directory is not a directory.
    InvalidDirectory(String),
    /// The model-config file held invalid data.
    ModelConfigInvalidData(String),
    /// Any other input/output failure; carries its description.
    Io(String),
    /// The model-config file did not parse; carries the parser's words.
    ModelParse(String),
    /// A mesh file held a token that is not a number.
    TriFileParse(String),
    /// A mesh file's scalar count is not a multiple of nine.
    TriFileFloatNum,
}

/// The top-level error: whichever subsystem failed.
#[derive(Debug, PartialEq, Eq)]
pub enum LatrError {
    /// The GPU failed; carries the description.
    Gpu(String),
    /// The window or event loop failed; carries the description.
    Window(String),
    /// The engine pipeline failed.
    Engine(EngineError),
}

} // verus!
