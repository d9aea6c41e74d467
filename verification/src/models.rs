//! Plain records of the application whose folders are versioned: settings,
//! recording options and the vocabulary of captured actions.

use vstd::prelude::*;

verus! {

/// How a rendered animation trades speed for quality.
#[derive(Clone, Copy, PartialEq, Eq, Structural, Debug)]
pub enum RenderQuality {
    Low,
    Medium,
    High,
    UltraHigh,
}

impl RenderQuality {
    /// The renderer's command-line flag for this quality.
    pub fn flag(&self) -> (r: &'static str)
        ensures
            r@ == match *self {
                RenderQuality::Low => "-ql"@,
                RenderQuality::Medium => "-qm"@,
                RenderQuality::High => "-qh"@,
                RenderQuality::UltraHigh => "-qk"@,
            },
    {
        match self {
            RenderQuality::Low => "-ql",
            RenderQuality::Medium => "-qm",
            RenderQuality::High => "-qh",
            RenderQuality::UltraHigh => "-qk",
        }
    }
}

/// How a recording trades size for quality.
#[derive(Clone, Copy, PartialEq, Eq, Structural, Debug)]
pub enum RecordingQuality {
    Low,
    Medium,
    High,
    Lossless,
}

/// The settings of a project.
#[derive(Clone, Debug)]
pub struct ProjectSettings {
    /// Where finished videos go; the project's own folder where none is set.
    pub output_directory: Option<String>,
    pub recording_quality: RecordingQuality,
    /// Frames per second.
    pub frame_rate: u32,
}

impl Default for ProjectSettings {
    /// High quality at 30 frames per second, into the project's own folder.
    fn default() -> (r: ProjectSettings)
        ensures
            r.output_directory is None,
            r.recording_quality == RecordingQuality::High,
            r.frame_rate == 30,
    {
        ProjectSettings {
            output_directory: None,
            recording_quality: RecordingQuality::High,
            frame_rate: 30,
        }
    }
}

/// Where a row of a script came from.
#[derive(Clone, Copy, PartialEq, Eq, Structural, Debug)]
pub enum RowSource {
    Recorded,
    Manual,
    Agent,
}

/// What is known of a row of a script beside its content.
#[derive(Clone, Copy, PartialEq, Eq, Structural, Debug)]
pub struct RowMetadata {
    pub source: RowSource,
    /// Whether the row was refined after it was written.
    pub refined: bool,
}

impl Default for RowMetadata {
    /// A row written by hand and not refined.
    fn default() -> (r: RowMetadata)
        ensures
            r.source == RowSource::Manual,
            !r.refined,
    {
        RowMetadata { source: RowSource::Manual, refined: false }
    }
}

/// The stages of a document's life.
#[derive(Clone, Copy, PartialEq, Eq, Structural, Debug)]
pub enum DocumentState {
    Sketch,
    RecordingEnriched,
    Refined,
    Final,
}

/// The stages of a sketch's life.
#[derive(Clone, Copy, PartialEq, Eq, Structural, Debug)]
pub enum SketchState {
    Draft,
    RecordingEnriched,
    Refined,
    Final,
}

/// The direction of a scroll.
#[derive(Clone, Copy, PartialEq, Eq, Structural, Debug)]
pub enum ScrollDirection {
    Up,
    Down,
    Left,
    Right,
}

/// A rectangle of the screen, in pixels.
#[derive(Clone, Copy, PartialEq, Eq, Structural, Debug)]
pub struct ScreenRegion {
    pub x: i32,
    pub y: i32,
    pub width: u32,
    pub height: u32,
}

/// One step of a path through a tree of user-interface elements.
#[derive(Clone, Debug)]
pub struct UiaPathSegment {
    pub control_type: String,
    pub name: Option<String>,
    pub automation_id: Option<String>,
    pub index: usize,
}

/// A way to find an element again when a recorded action is replayed.
#[derive(Clone, Debug)]
pub enum SelectorStrategy {
    CssSelector(String),
    XPath(String),
    AccessibilityId(String),
    AccessibilityName(String),
    DataTestId(String),
    TextContent(String),
    UiaTreePath(Vec<UiaPathSegment>),
}

/// How a session is recorded.
#[derive(Clone, Copy, PartialEq, Eq, Structural, Debug)]
pub enum RecordingMode {
    FreeForm,
    StepByStep,
}

/// Where a raw event was observed.
#[derive(Clone, Copy, PartialEq, Eq, Structural, Debug)]
pub enum EventSource {
    Cdp,
    DomObserver,
    WinEventHook,
    InputHook,
}

/// An event as it was observed, before it was understood as an action.
#[derive(Clone, Debug)]
pub struct RawEvent {
    pub source: EventSource,
    pub data: String,
}

/// The kind of a track of a recording.
#[derive(Clone, Copy, PartialEq, Eq, Structural, Debug)]
pub enum TrackType {
    Video,
    Audio,
}

/// A track of a recording.
#[derive(Clone, Debug)]
pub struct TrackInfo {
    pub index: u32,
    pub track_type: TrackType,
    pub title: String,
    pub codec: String,
}

/// Who speaks in a conversation with a language model.
#[derive(Clone, Copy, PartialEq, Eq, Structural, Debug)]
pub enum Role {
    System,
    User,
    Assistant,
}

/// One turn of a conversation with a language model.
#[derive(Clone, Debug)]
pub struct Message {
    pub role: Role,
    pub content: String,
}

} // verus!
