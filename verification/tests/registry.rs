use image_registry::ingest::Candidate;
use image_registry::ingest::ingest_candidates;
use image_registry::paths::has_supported_extension;
use image_registry::paths::is_supported_image;
use image_registry::state::AppState;

fn candidate(path: &str, is_regular_file: bool) -> Candidate {
    Candidate { path: path.to_string(), is_regular_file }
}

#[test]
fn untouched_registry_lists_empty() {
    let state = AppState::new();
    let paths = state.get_image_paths();
    assert_eq!(paths, Vec::<String>::new());
}

#[test]
fn add_image_bypasses_validation() {
    let mut state = AppState::new();
    state.add_image("missing.jpg".to_string());
    state.add_image("notes.txt".to_string());
    state.add_image("no_extension".to_string());
    assert_eq!(
        state.get_image_paths(),
        vec![
            "missing.jpg".to_string(),
            "notes.txt".to_string(),
            "no_extension".to_string(),
        ]
    );
}

#[test]
fn list_twice_without_append_is_identical() {
    let mut state = AppState::new();
    state.add_image("a.png".to_string());
    state.add_image("b.bmp".to_string());
    let first = state.get_image_paths();
    let second = state.get_image_paths();
    assert_eq!(first, second);
}

#[test]
fn serialized_appends_lose_no_update() {
    let mut state = AppState::new();
    let count: usize = 25;
    for i in 0..count {
        state.add_image(format!("image_{}.png", i));
    }
    let paths = state.get_image_paths();
    assert_eq!(paths.len(), count);
    for i in 0..count {
        assert_eq!(paths[i], format!("image_{}.png", i));
    }
}

#[test]
fn ingestion_keeps_accepted_candidates_in_order() {
    let mut state = AppState::new();
    let candidates = vec![
        candidate("a.png", true),
        candidate("b.txt", true),
        candidate("missing.jpg", false),
        candidate("c.WEBP", true),
    ];
    ingest_candidates(&mut state, candidates);
    assert_eq!(
        state.get_image_paths(),
        vec!["a.png".to_string(), "c.WEBP".to_string()]
    );
}

#[test]
fn ingestion_of_empty_list_leaves_registry_empty() {
    let mut state = AppState::new();
    ingest_candidates(&mut state, Vec::new());
    assert_eq!(state.get_image_paths(), Vec::<String>::new());
}

#[test]
fn ingestion_appends_behind_existing_entries() {
    let mut state = AppState::new();
    state.add_image("already_there.txt".to_string());
    ingest_candidates(&mut state, vec![candidate("late.jpeg", true)]);
    assert_eq!(
        state.get_image_paths(),
        vec!["already_there.txt".to_string(), "late.jpeg".to_string()]
    );
}

#[test]
fn supported_extensions_are_accepted() {
    for path in ["a.png", "a.jpg", "a.jpeg", "a.bmp", "a.webp"] {
        assert!(has_supported_extension(path), "{} should be supported", path);
    }
}

#[test]
fn extension_match_is_case_insensitive() {
    for path in ["a.PNG", "a.Jpg", "a.JpEg", "a.BMP", "c.WEBP"] {
        assert!(has_supported_extension(path), "{} should be supported", path);
    }
}

#[test]
fn unsupported_extensions_are_rejected() {
    for path in ["b.txt", "a.gif", "a.tiff", "archive.tar.gz", "a.web", "a.pngx"] {
        assert!(!has_supported_extension(path), "{} should be rejected", path);
    }
}

#[test]
fn missing_extension_is_rejected() {
    for path in ["noext", "", ".", "..", "trailing.", "dir.d/name"] {
        assert!(!has_supported_extension(path), "{} should be rejected", path);
    }
}

#[test]
fn hidden_file_name_has_no_extension() {
    assert!(!has_supported_extension(".png"));
    assert!(!has_supported_extension("dir/.jpg"));
    assert!(has_supported_extension(".hidden.png"));
}

#[test]
fn extension_comes_from_the_final_segment() {
    assert!(has_supported_extension("dir.txt/file.png"));
    assert!(!has_supported_extension("dir.png/file"));
    assert!(has_supported_extension("/absolute/path/to/pic.jpeg"));
}

#[test]
fn non_ascii_paths_are_handled() {
    assert!(has_supported_extension("bilder/übung.png"));
    assert!(!has_supported_extension("bilder/übung.txt"));
}

#[test]
fn probe_verdict_gates_acceptance() {
    assert!(is_supported_image("a.png", true));
    assert!(!is_supported_image("a.png", false));
    assert!(!is_supported_image("a.txt", true));
}
