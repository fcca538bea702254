use agerus_core::config::Config;
use agerus_core::ui_state::{
    chat_scroll_down, chat_scroll_page, chat_scroll_up, command_end_summary,
    initial_model_selection, models_loaded, select_next_model, select_prev_model,
    term_at_bottom, term_scroll_after, to_decimal, toggled_view, AppMode,
};

#[test]
fn the_view_toggle_alternates_chat_and_terminal() {
    assert_eq!(toggled_view(AppMode::Chat), AppMode::Terminal);
    assert_eq!(toggled_view(AppMode::Terminal), AppMode::Chat);
    assert_eq!(toggled_view(AppMode::ModelSelector), AppMode::Chat);
}

#[test]
fn selection_wraps_in_both_directions() {
    assert_eq!(select_next_model(3, Some(0)), Some(1));
    assert_eq!(select_next_model(3, Some(2)), Some(0));
    assert_eq!(select_next_model(3, None), Some(0));
    assert_eq!(select_next_model(0, None), None);
    assert_eq!(select_prev_model(3, Some(0)), Some(2));
    assert_eq!(select_prev_model(3, Some(2)), Some(1));
    assert_eq!(select_prev_model(3, None), Some(0));
    assert_eq!(select_prev_model(0, Some(0)), Some(0));
}

#[test]
fn initial_selection_prefers_the_configured_model() {
    let models = vec!["alpha".to_string(), "beta".to_string(), "gamma".to_string()];
    assert_eq!(initial_model_selection(&models, &"beta".to_string()), Some(1));
    assert_eq!(initial_model_selection(&models, &"missing".to_string()), Some(0));
    assert_eq!(initial_model_selection(&Vec::new(), &"beta".to_string()), None);
}

#[test]
fn scrolling_saturates_at_both_ends() {
    assert_eq!(chat_scroll_up(0), 0);
    assert_eq!(chat_scroll_up(5), 4);
    assert_eq!(chat_scroll_down(5), 6);
    assert_eq!(chat_scroll_down(u16::MAX), u16::MAX);
    assert_eq!(chat_scroll_page(5, -10), 0);
    assert_eq!(chat_scroll_page(15, -10), 5);
    assert_eq!(chat_scroll_page(5, 10), 15);
    assert_eq!(chat_scroll_page(u16::MAX - 3, 10), u16::MAX);
}

#[test]
fn terminal_scrolling_never_goes_before_the_first_line() {
    assert_eq!(term_scroll_after(Some(4), -10), 0);
    assert_eq!(term_scroll_after(Some(4), 3), 7);
    assert_eq!(term_scroll_after(None, -1), 0);
    assert!(term_at_bottom(None, 10));
    assert!(term_at_bottom(Some(9), 10));
    assert!(!term_at_bottom(Some(3), 10));
    assert!(term_at_bottom(Some(0), 0));
}

#[test]
fn decimal_rendering_is_exact() {
    assert_eq!(to_decimal(0), b"0".to_vec());
    assert_eq!(to_decimal(7), b"7".to_vec());
    assert_eq!(to_decimal(201), b"201".to_vec());
    assert_eq!(to_decimal(99999), b"99999".to_vec());
}

#[test]
fn short_tool_output_stays_long_output_is_summarised() {
    let short = vec![b'x'; 200];
    assert_eq!(command_end_summary(short.clone()), short);
    let long = vec![b'y'; 201];
    assert_eq!(
        command_end_summary(long),
        b"Output (201 bytes) sent to terminal.".to_vec()
    );
}

#[test]
fn a_tags_response_yields_names_and_a_selection() {
    let body = b"{\"models\":[{\"name\":\"alpha\"},{\"name\":\"beta\"}]}".to_vec();
    let (names, sel) = models_loaded(&body, &"beta".to_string());
    assert_eq!(names, vec!["alpha".to_string(), "beta".to_string()]);
    assert_eq!(sel, Some(1));
}

#[test]
fn a_malformed_tags_response_yields_no_names() {
    let (names, sel) = models_loaded(&b"not json".to_vec(), &"beta".to_string());
    assert!(names.is_empty());
    assert_eq!(sel, None);
}

#[test]
fn the_default_configuration_is_fixed() {
    let c = Config::default();
    assert_eq!(c.model, "qwen2.5-coder:latest");
    assert_eq!(c.workspace_path, "./workspace");
    assert_eq!(c.ollama_url, "http://localhost:11434/api/chat");
}

#[test]
fn session_names_sort_newest_first() {
    let mut names = vec![
        "chat_2024-01-02_10-00".to_string(),
        "chat_2024-03-01_09-30".to_string(),
        "chat_2024-01-02_09-59".to_string(),
        "notes".to_string(),
    ];
    agerus_core::sessions::sort_names_desc(&mut names);
    assert_eq!(
        names,
        vec![
            "notes".to_string(),
            "chat_2024-03-01_09-30".to_string(),
            "chat_2024-01-02_10-00".to_string(),
            "chat_2024-01-02_09-59".to_string(),
        ]
    );
}

#[test]
fn sorting_keeps_duplicates() {
    let mut names = vec!["b".to_string(), "a".to_string(), "b".to_string()];
    agerus_core::sessions::sort_names_desc(&mut names);
    assert_eq!(names, vec!["b".to_string(), "b".to_string(), "a".to_string()]);
}
