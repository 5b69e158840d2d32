use muteapp::config::Config;
use muteapp::indicator::{
    apply_alpha, composite_layer, draw_svg_icon_with_alpha, frame_len, indicator_settings,
    overlay_bitmap, render_indicator_rgba, scaled_indicator_size, unpremultiply_frame,
    IndicatorState,
};

#[test]
fn frame_len_is_four_bytes_per_pixel() {
    assert_eq!(frame_len(0), 0);
    assert_eq!(frame_len(3), 36);
    assert_eq!(frame_len(240), 230400);
}

#[test]
fn apply_alpha_scales_whole_pixels_only() {
    let mut frame = vec![255, 128, 0, 255, 9];
    apply_alpha(&mut frame, 128);
    assert_eq!(frame, vec![128, 64, 0, 128, 9]);
}

#[test]
fn full_opacity_keeps_layer() {
    let before = vec![1, 2, 3, 4, 250, 251, 252, 253];
    let mut frame = before.clone();
    apply_alpha(&mut frame, 255);
    assert_eq!(frame, before);
}

#[test]
fn zero_opacity_clears_layer() {
    let mut frame = vec![1, 2, 3, 4, 250, 251, 252, 253, 7];
    apply_alpha(&mut frame, 0);
    assert_eq!(frame, vec![0, 0, 0, 0, 0, 0, 0, 0, 7]);
}

#[test]
fn composite_blends_premultiplied_source() {
    let mut frame = vec![200, 200, 200, 255, 255, 255, 255, 255];
    let layer = vec![100, 0, 0, 100, 250, 0, 0, 10];
    composite_layer(&mut frame, &layer);
    // 100 + 200 * 155 / 255 = 221; the second pixel wraps: 250 + 245 = 495 -> 239.
    assert_eq!(frame, vec![221, 121, 121, 255, 239, 245, 245, 255]);
}

#[test]
fn composite_stops_at_the_shorter_frame() {
    let mut frame = vec![10, 20, 30, 40, 50, 60, 70, 80, 90];
    let layer = vec![0, 0, 0, 255];
    composite_layer(&mut frame, &layer);
    assert_eq!(frame, vec![0, 0, 0, 255, 50, 60, 70, 80, 90]);
}

#[test]
fn transparent_layer_keeps_frame() {
    let before = vec![10, 20, 30, 40, 50, 60, 70, 80];
    let mut frame = before.clone();
    composite_layer(&mut frame, &vec![0; 8]);
    assert_eq!(frame, before);
}

#[test]
fn unpremultiply_divides_by_alpha() {
    let mut frame = vec![50, 100, 200, 128, 1, 2, 3, 0, 4, 5, 6, 255, 9];
    unpremultiply_frame(&mut frame);
    assert_eq!(frame, vec![99, 199, 255, 128, 1, 2, 3, 0, 4, 5, 6, 255, 9]);
}

#[test]
fn icon_with_alpha_is_scaled_then_drawn() {
    let mut frame = vec![0, 0, 0, 0];
    draw_svg_icon_with_alpha(&mut frame, vec![255, 255, 255, 255], 128);
    assert_eq!(frame, vec![128, 128, 128, 128]);
}

#[test]
fn tiny_indicators_stay_transparent() {
    let state = IndicatorState { muted: true, background_transparency: 200, foreground_transparency: 255 };
    assert_eq!(render_indicator_rgba(0, state, &vec![], &vec![]), Vec::<u8>::new());
    assert_eq!(render_indicator_rgba(1, state, &vec![], &vec![]), vec![0, 0, 0, 0]);
}

#[test]
fn indicator_is_composed_from_layers() {
    let state = IndicatorState { muted: false, background_transparency: 255, foreground_transparency: 0 };
    let background = vec![
        10, 20, 30, 255, 0, 0, 0, 0, 100, 100, 100, 200, 1, 2, 3, 4,
    ];
    let icon = vec![255; 16];
    // An invisible icon leaves the (opaque or unpremultiplied) background.
    let frame = render_indicator_rgba(2, state, &background, &icon);
    assert_eq!(frame, vec![10, 20, 30, 255, 0, 0, 0, 0, 127, 127, 127, 200, 63, 127, 191, 4]);

    let state = IndicatorState { muted: true, background_transparency: 0, foreground_transparency: 255 };
    let icon = vec![0, 0, 0, 0, 255, 0, 0, 255, 0, 0, 0, 0, 0, 0, 0, 0];
    let frame = render_indicator_rgba(2, state, &background, &icon);
    assert_eq!(frame, vec![0; 4].into_iter().chain([255, 0, 0, 255]).chain(vec![0; 8]).collect::<Vec<u8>>());
}

#[test]
fn overlay_bitmap_is_premultiplied_bgra() {
    assert_eq!(overlay_bitmap(1, &vec![10, 20, 30, 255]), Some(vec![30, 20, 10, 255]));
    assert_eq!(overlay_bitmap(1, &vec![100, 50, 0, 128]), Some(vec![0, 25, 50, 128]));
    assert_eq!(overlay_bitmap(1, &vec![100, 50, 0]), None);
    assert_eq!(overlay_bitmap(2, &vec![0; 4]), None);
    assert_eq!(overlay_bitmap(0, &vec![]), Some(vec![]));
}

#[test]
fn default_indicator_settings() {
    let config = Config::load_or_create(None);
    let settings = indicator_settings(&config).unwrap();
    assert_eq!(settings.duration_ms, 1000);
    assert_eq!(settings.base_size, 240);
    assert_eq!(settings.background_transparency, 200);
    assert_eq!(settings.foreground_transparency, 255);
}

#[test]
fn indicator_switched_off() {
    let off = ["indicatorDuration = 0", "indicatorSize = 0", "indicatorSize = -5", "indicatorTransparency = 0\nindicatorForegroundTransparency = -1"];
    for text in off {
        let config = Config::load_or_create(Some(text));
        assert!(indicator_settings(&config).is_none(), "{text}");
    }
}

#[test]
fn opacities_are_clamped_and_bad_numbers_fall_back() {
    let config = Config::load_or_create(Some(
        "indicatorTransparency = 300\nindicatorForegroundTransparency = -3\nindicatorDuration = soon\nindicatorSize = 2147483648",
    ));
    let settings = indicator_settings(&config).unwrap();
    assert_eq!(settings.background_transparency, 255);
    assert_eq!(settings.foreground_transparency, 0);
    assert_eq!(settings.duration_ms, 1000);
    assert_eq!(settings.base_size, 240);
}

#[test]
fn indicator_size_scales_with_dpi() {
    assert_eq!(scaled_indicator_size(240, 96), 240);
    assert_eq!(scaled_indicator_size(240, 144), 360);
    assert_eq!(scaled_indicator_size(1, 10), 1);
    assert_eq!(scaled_indicator_size(u32::MAX, 2), u32::MAX / 96);
}
