//! Capability interfaces the frame pass reads its surroundings through:
//! configuration, font cell metrics and per-frame transient state.

use vstd::prelude::*;
use crate::command::HsbTransform;
use crate::termwindow::{AllowImage, TermWindow};

verus! {

/// The configuration values the pipeline reads.
#[derive(Clone, Copy, Debug, PartialEq, Eq, Structural)]
pub struct RenderSettings {
    /// Color transform applied to foreground text by the shader.
    pub foreground_text_hsb: HsbTransform,
    /// Frame rate for animated post-process shaders; zero disables them.
    pub webgpu_shader_fps: u8,
    pub max_fps: u64,
}

/// The font cell geometry the describer laid panes out with.
#[derive(Clone, Copy, Debug, PartialEq, Eq, Structural)]
pub struct RenderMetrics {
    pub cell_width: u32,
    pub cell_height: u32,
}

pub trait ConfigObserver {
    fn config(&self) -> &RenderSettings;
}

pub trait RenderMetricsObserver {
    fn render_metrics(&self) -> &RenderMetrics;
}

pub trait TransientRenderObserver {
    fn allow_images(&self) -> AllowImage;

    fn shape_generation(&self) -> usize;
}

/// Everything a frame pass observes about its surroundings.
pub trait FrameObserver: ConfigObserver + RenderMetricsObserver + TransientRenderObserver {

}

impl ConfigObserver for TermWindow {
    fn config(&self) -> (r: &RenderSettings)
        ensures
            *r == self.settings,
    {
        &self.settings
    }
}

impl RenderMetricsObserver for TermWindow {
    fn render_metrics(&self) -> (r: &RenderMetrics)
        ensures
            *r == self.metrics,
    {
        &self.metrics
    }
}

impl TransientRenderObserver for TermWindow {
    fn allow_images(&self) -> (r: AllowImage)
        ensures
            r == self.allow_images,
    {
        self.allow_images
    }

    fn shape_generation(&self) -> (r: usize)
        ensures
            r == self.shape_generation,
    {
        self.shape_generation
    }
}

impl FrameObserver for TermWindow {

}

} // verus!
