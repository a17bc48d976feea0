use kokoros::tts::koko::InitConfig;
use kokoros::tts::locate::{check_files, choose_location, search_paths, ConfigError};

#[test]
fn a_model_is_looked_for_in_the_data_directories() {
    let places = search_paths("checkpoints/kokoro-v1.0.onnx", "kokoro-v1.0.onnx", "/home/u", "model");
    assert_eq!(
        places,
        vec![
            "/home/u/.local/share/koko/kokoro-v1.0.onnx",
            "/usr/local/share/koko/kokoro-v1.0.onnx",
            "/usr/share/koko/kokoro-v1.0.onnx",
            "checkpoints/kokoro-v1.0.onnx",
        ]
    );
}

#[test]
fn voices_are_looked_for_in_the_data_directories() {
    let places = search_paths("data/voices-v1.0.bin", "voices-v1.0.bin", ".", "voices");
    assert_eq!(
        places,
        vec![
            "./.local/share/koko/voices-v1.0.bin",
            "/usr/local/share/koko/voices-v1.0.bin",
            "/usr/share/koko/voices-v1.0.bin",
            "data/voices-v1.0.bin",
        ]
    );
}

#[test]
fn another_file_is_looked_for_at_its_path_alone() {
    assert_eq!(search_paths("a/b.txt", "b.txt", "/home/u", "notes"), vec!["a/b.txt"]);
}

#[test]
fn a_file_at_the_given_path_is_used() {
    let places = search_paths("m.onnx", "m.onnx", "/h", "model");
    let chosen = choose_location("m.onnx", true, &places, &vec![true, true, true, true]);
    assert_eq!(chosen, "m.onnx");
}

#[test]
fn the_first_place_that_exists_is_used() {
    let places = search_paths("x/m.onnx", "m.onnx", "/h", "model");
    let chosen = choose_location("x/m.onnx", false, &places, &vec![false, true, true, false]);
    assert_eq!(chosen, "/usr/local/share/koko/m.onnx");
    let chosen = choose_location("x/m.onnx", false, &places, &vec![true, false, true, false]);
    assert_eq!(chosen, "/h/.local/share/koko/m.onnx");
}

#[test]
fn the_given_path_is_kept_where_nothing_exists() {
    let places = search_paths("x/m.onnx", "m.onnx", "/h", "model");
    let chosen = choose_location("x/m.onnx", false, &places, &vec![false, false, false, false]);
    assert_eq!(chosen, "x/m.onnx");
    let chosen = choose_location("x/m.onnx", false, &places, &vec![true]);
    assert_eq!(chosen, "x/m.onnx");
}

#[test]
fn nothing_is_missing_where_both_files_exist() {
    assert!(check_files("m", true, "v", true, &InitConfig::default()).is_ok());
}

#[test]
fn a_missing_model_is_reported_before_missing_voices() {
    let cfg = InitConfig::default();
    match check_files("m.onnx", false, "v.bin", false, &cfg) {
        Err(ConfigError::ModelNotFound { path, url }) => {
            assert_eq!(path, "m.onnx");
            assert_eq!(url, cfg.model_url);
        }
        other => panic!("unexpected: {:?}", other),
    }
}

#[test]
fn the_guidance_for_a_missing_model_names_the_places() {
    let cfg = InitConfig::default();
    let lines = check_files("m.onnx", false, "v.bin", true, &cfg).unwrap_err().guidance();
    assert_eq!(
        lines,
        vec![
            "Model file not found: m.onnx".to_string(),
            format!("Please download the model file from: {}", cfg.model_url),
            "And place it at one of these locations:".to_string(),
            "  - m.onnx".to_string(),
            "  - ~/.local/share/koko/kokoro-v1.0.onnx".to_string(),
            "  - /usr/local/share/koko/kokoro-v1.0.onnx".to_string(),
            "  - /usr/share/koko/kokoro-v1.0.onnx".to_string(),
        ]
    );
}

#[test]
fn the_guidance_for_missing_voices_names_the_places() {
    let cfg = InitConfig::default();
    let error = check_files("m.onnx", true, "v.bin", false, &cfg).unwrap_err();
    assert!(matches!(error, ConfigError::VoicesNotFound { .. }));
    assert_eq!(
        error.guidance(),
        vec![
            "Voices data file not found: v.bin".to_string(),
            format!("Please download the voices data file from: {}", cfg.voices_url),
            "And place it at one of these locations:".to_string(),
            "  - v.bin".to_string(),
            "  - ~/.local/share/koko/voices-v1.0.bin".to_string(),
            "  - /usr/local/share/koko/voices-v1.0.bin".to_string(),
            "  - /usr/share/koko/voices-v1.0.bin".to_string(),
        ]
    );
}
