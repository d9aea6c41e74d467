use cutready::models::{ProjectSettings, RecordingQuality, RenderQuality, RowMetadata, RowSource};

#[test]
fn render_quality_flags() {
    assert_eq!(RenderQuality::Low.flag(), "-ql");
    assert_eq!(RenderQuality::Medium.flag(), "-qm");
    assert_eq!(RenderQuality::High.flag(), "-qh");
    assert_eq!(RenderQuality::UltraHigh.flag(), "-qk");
}

#[test]
fn project_settings_default() {
    let settings = ProjectSettings::default();
    assert!(settings.output_directory.is_none());
    assert_eq!(settings.recording_quality, RecordingQuality::High);
    assert_eq!(settings.frame_rate, 30);
}

#[test]
fn row_metadata_default() {
    let meta = RowMetadata::default();
    assert_eq!(meta.source, RowSource::Manual);
    assert!(!meta.refined);
}
