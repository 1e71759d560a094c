use check_av1_encode::args::process_args_would_fail;
use check_av1_encode::args::format_for_process;

fn strs(v: &[&str]) -> Vec<String> {
    v.iter().map(|s| s.to_string()).collect()
}

#[test]
fn format_for_process_plain_words() {
    let r = format_for_process(&"-i in.mkv -o out.mkv".to_string());
    assert_eq!(r, strs(&["-i", "in.mkv", "-o", "out.mkv"]));
}

#[test]
fn format_for_process_keeps_empty_pieces() {
    let r = format_for_process(&"a  b".to_string());
    assert_eq!(r, strs(&["a", "", "b"]));
    let r = format_for_process(&"".to_string());
    assert_eq!(r, strs(&[""]));
}

#[test]
fn format_for_process_joins_quoted_group() {
    let r = format_for_process(&"-i \"my video.mkv\" -o \"out put.mkv\" --x".to_string());
    assert_eq!(r, strs(&["-i", "my video.mkv", "-o", "out put.mkv", "--x"]));
}

#[test]
fn format_for_process_quoted_single_token() {
    let r = format_for_process(&"\"a\" \"\" b".to_string());
    assert_eq!(r, strs(&["a", "", "b"]));
}

#[test]
fn format_for_process_quoted_group_with_double_space() {
    let r = format_for_process(&"\"a  b\" c".to_string());
    assert_eq!(r, strs(&["a  b", "c"]));
}

#[test]
fn format_for_process_unclosed_quote_at_start() {
    // the first token loses its first and its last character
    let r = format_for_process(&"\"abc".to_string());
    assert_eq!(r, strs(&["ab"]));
    let r = format_for_process(&"\"a b".to_string());
    assert_eq!(r, strs(&["", "b"]));
}

#[test]
fn format_for_process_quote_in_middle_of_token() {
    let r = format_for_process(&"a\"b c".to_string());
    assert_eq!(r, strs(&["a\"b", "c"]));
}

#[test]
fn format_for_process_round_trip_of_quoted_args() {
    // arguments with spaces quoted, the others as they are
    let line = "--input \"/videos/my clip.mkv\" -w 4 \"plain\"";
    let r = format_for_process(&line.to_string());
    assert_eq!(r, strs(&["--input", "/videos/my clip.mkv", "-w", "4", "plain"]));
}

#[test]
fn process_args_would_fail_cases() {
    assert!(!process_args_would_fail(&"-i \"a b\" c".to_string()));
    // a lone quote that closes itself
    assert!(process_args_would_fail(&"a \" b".to_string()));
    // an opening quote that is never closed, after the first token
    assert!(process_args_would_fail(&"a \"b c".to_string()));
    // unclosed at the first token: fine where its last character is one byte
    assert!(!process_args_would_fail(&"\"abc".to_string()));
    assert!(process_args_would_fail(&"\"abé".to_string()));
}

#[test]
fn filled_settings_split_into_arguments() {
    let line = check_av1_encode::settings::format_encoding_settings(
        "-i INPUT --crf CRF -o OUTPUT",
        &"my in.mkv".to_string(),
        "6",
        "28",
        "4",
        &"out.mkv".to_string(),
    );
    assert_eq!(format_for_process(&line), strs(&["-i", "my in.mkv", "--crf", "28", "-o", "out.mkv"]));
}
