use check_av1_encode::clips::clips_fit;
use check_av1_encode::clips::{clip_name, parse_video_length, plan_clips, ClipPlan};
use check_av1_encode::paths::{
    tool_paths_from_json, tool_paths_from_value, PathKey, PathsError, ToolPaths,
};
use check_av1_encode::settings::{
    clip_encoded_path, clip_source_path, encoded_index_path, ffprobe_settings,
    format_encoding_settings, ssim2_settings,
};
use check_av1_encode::ssim2::parse_ssim2_output;

#[test]
fn encoding_settings_placeholders() {
    let r = format_encoding_settings(
        "-i INPUT --speed SPEED --crf CRF -w WORKER_NUM -o OUTPUT",
        &"in put.mkv".to_string(),
        "6",
        "30",
        "4",
        &"out.mkv".to_string(),
    );
    assert_eq!(r, "-i \"in put.mkv\" --speed 6 --crf 30 -w 4 -o \"out.mkv\"");
}

#[test]
fn encoding_settings_are_filled_in_order() {
    // a value that holds a later placeholder is filled again
    let r = format_encoding_settings("INPUT CRF", &"CRF".to_string(), "s", "20", "w", &"o".to_string());
    assert_eq!(r, "\"20\" 20");
}

#[test]
fn command_paths() {
    assert_eq!(clip_source_path("0-20-0.mkv"), "output_helper/clips/0-20-0.mkv");
    assert_eq!(clip_encoded_path("0-20-0.mkv"), "output_helper/clips_encoded/0-20-0.mkv");
    assert_eq!(encoded_index_path("a.mkv"), "a.mkv.lwi");
    assert_eq!(
        ffprobe_settings("v.mkv"),
        "-v error -select_streams v:0 -show_entries format=duration -of default=noprint_wrappers=1:nokey=1 \"v.mkv\""
    );
}

#[test]
fn ssim2_command() {
    assert_eq!(
        ssim2_settings("/bin/ssim2", "4", "a.mkv", "b.mkv", true),
        "/bin/ssim2 video -f 4 \"a.mkv\" \"b.mkv\""
    );
    assert_eq!(
        ssim2_settings("/bin/ssim2", "4", "a.mkv", "b.mkv", false),
        "runp /bin/ssim2 video -f 4 \"a.mkv\" \"b.mkv\""
    );
}

#[test]
fn video_length_from_probe() {
    assert_eq!(parse_video_length("1234.567000\n"), Some(1234));
    assert_eq!(parse_video_length("12\n"), None);
    assert_eq!(parse_video_length("x.5"), None);
    assert_eq!(parse_video_length(".5"), None);
}

#[test]
fn clip_names() {
    assert_eq!(clip_name(0, 20, 0), "0-20-0.mkv");
    assert_eq!(clip_name(380, 20, 1), "380-400-1.mkv");
}

#[test]
fn plan_clips_every_interval() {
    match plan_clips("v.mkv", 1000, 20, 360) {
        ClipPlan::WholeVideo => panic!("expected clips"),
        ClipPlan::Clips(cs) => {
            let names: Vec<&str> = cs.iter().map(|c| c.name.as_str()).collect();
            assert_eq!(names, vec!["0-20-0.mkv", "380-400-1.mkv", "760-780-2.mkv"]);
            assert_eq!(
                cs[1].ffmpeg_settings,
                "-ss 380 -i \"v.mkv\" -c copy -t 20 \"output_helper/clips/380-400-1.mkv\""
            );
        }
    }
}

#[test]
fn plan_clips_short_video_is_whole() {
    assert!(matches!(plan_clips("v.mkv", 10, 20, 360), ClipPlan::WholeVideo));
    match plan_clips("v.mkv", 20, 20, 360) {
        ClipPlan::Clips(cs) => assert_eq!(cs.len(), 1),
        ClipPlan::WholeVideo => panic!("expected one clip"),
    }
    match plan_clips("v.mkv", 380, 20, 360) {
        ClipPlan::Clips(cs) => assert_eq!(cs.len(), 1),
        ClipPlan::WholeVideo => panic!("expected one clip"),
    }
    match plan_clips("v.mkv", 381, 20, 360) {
        ClipPlan::Clips(cs) => assert_eq!(cs.len(), 2),
        ClipPlan::WholeVideo => panic!("expected two clips"),
    }
    match plan_clips("v.mkv", 0, 0, 5) {
        ClipPlan::Clips(cs) => assert!(cs.is_empty()),
        ClipPlan::WholeVideo => panic!("expected no clip"),
    }
}

#[test]
fn ssim2_output_score() {
    let out = "Frame 1: 95.1\nVideo Score for 95 percentile: 88.123\n";
    assert_eq!(parse_ssim2_output(out), Some("88".to_string()));
    assert_eq!(parse_ssim2_output("no newline"), None);
    assert_eq!(parse_ssim2_output("a:.5\n"), None);
    assert_eq!(parse_ssim2_output("a:x.5\n"), Some("".to_string()));
    assert_eq!(parse_ssim2_output("a:é9.5\n"), None);
    assert_eq!(parse_ssim2_output("score 90\n"), None);
}

fn paths() -> ToolPaths {
    ToolPaths {
        av1an: "av1an".to_string(),
        ssim2: "/usr/bin/ssimulacra2_rs".to_string(),
        arch: "arch.exe".to_string(),
        ffmpeg: "ffmpeg".to_string(),
        ffprobe: "ffprobe".to_string(),
        encoding_settings: "-i INPUT -o OUTPUT".to_string(),
    }
}

const GOOD: &str = r#"{"av1an": "av1an", "ssim2": "/usr/bin/ssimulacra2_rs", "arch": "arch.exe",
 "ffmpeg": "ffmpeg", "ffprobe": "ffprobe", "encoding_settings": "-i INPUT -o OUTPUT", "extra": 1}"#;

#[test]
fn paths_from_good_json() {
    assert_eq!(tool_paths_from_json(GOOD), Ok(paths()));
    let value: serde_json::Value = serde_json::from_str(GOOD).unwrap();
    assert_eq!(tool_paths_from_value(&value), Ok(paths()));
}

#[test]
fn paths_from_bad_json() {
    assert_eq!(tool_paths_from_json("{ not json"), Err(PathsError::Malformed));
    assert_eq!(tool_paths_from_json("[1, 2]"), Err(PathsError::MissingKey(PathKey::Av1an)));
    assert_eq!(
        tool_paths_from_json(r#"{"av1an": "a", "ssim2": 3, "arch": "x"}"#),
        Err(PathsError::MissingKey(PathKey::Ssim2))
    );
    assert_eq!(
        tool_paths_from_json(
            r#"{"av1an": "a", "ssim2": "s", "arch": "x", "ffmpeg": "f", "ffprobe": "p"}"#
        ),
        Err(PathsError::MissingKey(PathKey::EncodingSettings))
    );
}

#[test]
fn paths_error_messages() {
    assert_eq!(PathsError::Unreadable.message(), "Cannot Open/find json file \"paths.json\"");
    assert_eq!(PathsError::Malformed.message(), "\"paths.json\" fromatted incorectly");
    assert_eq!(
        PathsError::MissingKey(PathKey::EncodingSettings).message(),
        "\"encoding_settings\" was not found inside \"paths.json\""
    );
    assert_eq!(PathKey::Ffprobe.name(), "ffprobe");
}

#[test]
fn clips_fit_cases() {
    assert!(clips_fit(1000, 20, 360));
    assert!(clips_fit(10, 20, 360));
    assert!(!clips_fit(1000, 20, -20));
    assert!(!clips_fit(i32::MAX, 20, 360));
    assert!(clips_fit(0, 0, -5));
}
