use opencode_model_config::text::{comma_items, join_texts, sorted_unique, text_less, trim_text};
use opencode_model_config::util::{config_file_path, dialog_choice, pick_config_path, wsl_temp_path};

#[test]
fn text_order_is_by_code_point_prefix_first() {
    assert!(text_less("a", "b"));
    assert!(text_less("a", "ab"));
    assert!(text_less("", "a"));
    assert!(!text_less("a", "a"));
    assert!(!text_less("b", "ab"));
    assert!(text_less("Z", "a"));
}

#[test]
fn sorted_unique_sorts_and_drops_repeats() {
    let items = vec!["b".to_string(), "a".to_string(), "b".to_string(), "".to_string()];
    assert_eq!(sorted_unique(&items), vec!["".to_string(), "a".to_string(), "b".to_string()]);
}

#[test]
fn comma_lists_split_trim_and_join() {
    assert_eq!(comma_items(" text , ,image"), vec!["text".to_string(), "image".to_string()]);
    assert_eq!(comma_items(""), Vec::<String>::new());
    let items = vec!["text".to_string(), "image".to_string()];
    assert_eq!(join_texts(&items, ", "), "text, image");
    assert_eq!(trim_text("\u{3000} x\t\n"), "x");
}

#[test]
fn config_path_choices() {
    assert_eq!(
        config_file_path("C:\\Users\\me", "opencode.json"),
        "C:\\Users\\me\\.config\\opencode\\opencode.json"
    );
    assert_eq!(pick_config_path(Some("D:\\cfg.json"), Some("H"), true, true), Some("D:\\cfg.json".to_string()));
    assert_eq!(pick_config_path(Some(""), None, true, true), None);
    assert_eq!(pick_config_path(None, None, false, false), None);
    assert_eq!(
        pick_config_path(None, Some("H"), true, true),
        Some("H\\.config\\opencode\\opencode.json".to_string())
    );
    assert_eq!(
        pick_config_path(Some(""), Some("H"), false, true),
        Some("H\\.config\\opencode\\opencode.jsonc".to_string())
    );
    assert_eq!(
        pick_config_path(None, Some("H"), false, false),
        Some("H\\.config\\opencode\\opencode.json".to_string())
    );
}

#[test]
fn temp_file_path_in_wsl_form() {
    assert_eq!(
        wsl_temp_path("C:\\Users\\me\\AppData\\Local\\Temp\\opencode_config_tmp.json"),
        "/mnt/c/Users/me/AppData/Local/Temp/opencode_config_tmp.json"
    );
    assert_eq!(wsl_temp_path("/tmp/x.json"), "/tmp/x.json");
}

#[test]
fn dialog_output_is_trimmed() {
    assert_eq!(dialog_choice("  C:\\a.json\r\n"), Some("C:\\a.json".to_string()));
    assert_eq!(dialog_choice(" \r\n"), None);
}
