//! Run configuration, and the model-config records read from disk by the
//! surrounding program.
use vstd::prelude::*;

verus! {

/// How the engine runs.
#[derive(Debug, PartialEq, Eq, Structural, Clone, Copy)]
pub enum RunMode {
    /// The normal mode, with a window and the full pipeline.
    Gui,
    /// A testing mode without a window; the GPU writes to nothing.
    NoWinit,
}

impl Default for RunMode {
    fn default() -> (r: RunMode)
        ensures
            r == RunMode::Gui,
    {
        RunMode::Gui
    }
}

/// All settings for one run; defaults let a caller set only a few.
#[derive(Debug)]
pub struct LatrConfig {
    pub fps_cap: u32,
    pub model_file: Option<String>,
    pub resolution: (u32, u32),
    pub num_rays: (u32, u32),
    pub run_mode: RunMode,
}

impl LatrConfig {
    /// Points the run at a model-config file.
    pub fn attach_models(&mut self, file_path: String)
        ensures
            final(self).model_file == Some(file_path),
            final(self).fps_cap == old(self).fps_cap,
            final(self).resolution == old(self).resolution,
            final(self).num_rays == old(self).num_rays,
            final(self).run_mode == old(self).run_mode,
    {
        self.model_file = Some(file_path);
    }
}

impl Default for LatrConfig {
    /// A modest window, one ray per pixel, no model file.
    fn default() -> (r: LatrConfig)
        ensures
            r.fps_cap == 60,
            r.model_file is None,
            r.resolution == (640u32, 360u32),
            r.num_rays == r.resolution,
            r.run_mode == RunMode::Gui,
    {
        let resolution: (u32, u32) = (640, 360);
        LatrConfig {
            fps_cap: 60,
            resolution,
            num_rays: resolution,
            run_mode: RunMode::Gui,
            model_file: None,
        }
    }
}

/// One explicitly named model.
#[derive(Debug)]
pub struct ExplicitModelConfig {
    pub name: String,
    pub path: String,
}

/// The directories to scan for mesh files.
#[derive(Debug)]
pub struct DirectoriesConfig {
    pub model_folders: Vec<String>,
}

/// The model-config file's contents: optional directory list plus
/// explicitly named models.
#[derive(Debug)]
pub struct ModelConfig {
    pub directories: Option<DirectoriesConfig>,
    pub models: Vec<ExplicitModelConfig>,
}

} // verus!
