use one_weekend_raytracer::dimensions::CameraDimensions;
use one_weekend_raytracer::progress::{pixel_report_due, row_report_due};
use one_weekend_raytracer::render_quality::RenderQuality;
use one_weekend_raytracer::timer::ScopedTimer;

#[test]
fn square_has_equal_sides() {
    let d = CameraDimensions::square(400);
    assert_eq!((d.width, d.height), (400, 400));
}

#[test]
fn named_dimensions() {
    let m = CameraDimensions::medium();
    assert_eq!((m.width, m.height), (800, 450));
    let l = CameraDimensions::large();
    assert_eq!((l.width, l.height), (1200, 675));
    let f = CameraDimensions::fhd();
    assert_eq!((f.width, f.height), (1920, 1080));
    let d = CameraDimensions::default();
    assert_eq!((d.width, d.height), (800, 450));
}

#[test]
fn widescreen_heights_match_the_ratio() {
    for d in [CameraDimensions::medium(), CameraDimensions::large()] {
        assert_eq!((d.width as f32 / (16.0 / 9.0)).max(1.0) as u32, d.height);
    }
}

#[test]
fn largest_square() {
    let d = CameraDimensions::square(u32::MAX);
    assert_eq!((d.width, d.height), (u32::MAX, u32::MAX));
}

#[test]
fn quality_presets() {
    let low = RenderQuality::low();
    assert_eq!((low.samples_per_pixel, low.max_depth), (50, 10));
    let medium = RenderQuality::medium();
    assert_eq!((medium.samples_per_pixel, medium.max_depth), (100, 20));
    let high = RenderQuality::high();
    assert_eq!((high.samples_per_pixel, high.max_depth), (500, 50));
    let d = RenderQuality::default();
    assert_eq!((d.samples_per_pixel, d.max_depth), (100, 20));
}

#[test]
fn rows_report_every_frequency() {
    assert!(!row_report_due(0, 2));
    assert!(row_report_due(1, 2));
    assert!(row_report_due(0, 1));
    assert!(!row_report_due(5, 0));
    assert!(row_report_due(9, 10));
}

#[test]
fn pixels_report_on_full_lines() {
    assert_eq!(pixel_report_due(100, 100, 1), Some(1));
    assert_eq!(pixel_report_due(150, 100, 1), None);
    assert_eq!(pixel_report_due(200, 100, 2), Some(2));
    assert_eq!(pixel_report_due(300, 100, 2), None);
    assert_eq!(pixel_report_due(300, 100, 0), None);
    assert_eq!(pixel_report_due(0, 100, 3), Some(0));
}

#[test]
fn timer_keeps_name_and_unit() {
    let t = ScopedTimer::new("render", true);
    assert_eq!(t.name, "render");
    assert!(t.as_millis);
    let s = ScopedTimer::new("seconds", false);
    assert!(!s.as_millis);
}
