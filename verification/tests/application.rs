use semantic_index::context::{ContextId, ContextKind, IconName, ImageStatus};
use semantic_index::instance::{instance_path, resolve_instance_id};
use semantic_index::semantic_search_tool::{
    default_limit, SearchResult, SemanticSearchTool, SemanticSearchToolInput, DEFAULT_LIMIT,
};
use semantic_index::writing_app_settings::WritingAppSettings;

#[test]
fn context_ids_count_up_from_zero() {
    let mut next = ContextId::zero();
    assert_eq!(next, ContextId(0));
    assert_eq!(next.post_inc(), ContextId(0));
    assert_eq!(next.post_inc(), ContextId(1));
    assert_eq!(next, ContextId(2));
    assert_eq!(ContextId::for_lookup(), ContextId(u64::MAX));
}

#[test]
fn each_kind_of_context_has_its_icon() {
    assert_eq!(ContextKind::File.icon(), IconName::File);
    assert_eq!(ContextKind::Directory.icon(), IconName::Folder);
    assert_eq!(ContextKind::Symbol.icon(), IconName::Code);
    assert_eq!(ContextKind::Selection.icon(), IconName::Context);
    assert_eq!(ContextKind::FetchedUrl.icon(), IconName::Globe);
    assert_eq!(ContextKind::Thread.icon(), IconName::MessageBubbles);
    assert_eq!(ContextKind::TextThread.icon(), IconName::MessageBubbles);
    assert_eq!(ContextKind::Rules.icon(), IconName::Context);
    assert_eq!(ContextKind::Image.icon(), IconName::Image);
}

#[test]
fn image_status_follows_the_poll() {
    assert_eq!(ImageStatus::of_poll::<u8>(&None), ImageStatus::Loading);
    assert_eq!(ImageStatus::of_poll::<u8>(&Some(None)), ImageStatus::Error);
    assert_eq!(ImageStatus::of_poll(&Some(Some(1u8))), ImageStatus::Ready);
}

#[test]
fn instance_path_joins_subfolder_and_id() {
    assert_eq!(instance_path("/base", "cache", "1234"), "/base/cache-1234");
    assert_eq!(instance_path("/base/", "cache", "1234"), "/base/cache-1234");
    assert_eq!(instance_path("", "cache", "1234"), "cache-1234");
    assert_eq!(instance_path("/base", "/abs", "1234"), "/abs-1234");
    assert_eq!(instance_path("rel", "", "id"), "rel/-id");
    let expected = std::path::Path::new("/some/dir").join(format!("{}-{}", "logs", "abc"));
    assert_eq!(instance_path("/some/dir", "logs", "abc"), expected.to_string_lossy());
}

#[test]
fn search_limit_defaults_to_five() {
    assert_eq!(DEFAULT_LIMIT, 5);
    assert_eq!(default_limit(), Some(5));
    let input = SemanticSearchToolInput { query: "rust".to_string(), limit: None };
    assert_eq!(input.effective_limit(), 5);
    let input = SemanticSearchToolInput { query: "rust".to_string(), limit: Some(12) };
    assert_eq!(input.effective_limit(), 12);
    assert_eq!(input.clone(), input);
}

#[test]
fn search_tool_describes_itself() {
    let tool = SemanticSearchTool;
    assert_eq!(tool.name(), "semantic_search");
    assert!(tool.description().starts_with("Search through all indexed documents"));
    assert!(!tool.needs_confirmation());
    let input = SemanticSearchToolInput { query: "ownership rules".to_string(), limit: None };
    assert_eq!(tool.ui_text(Some(&input)), "Search documents for: \"ownership rules\"");
    assert_eq!(tool.ui_text(None), "Search documents");
    let result = SearchResult {
        file_path: "a.rs".to_string(),
        excerpt: "fn main".to_string(),
        line_start: 1,
        line_end: 2,
    };
    assert_eq!(result.line_end - result.line_start, 1);
}

#[test]
fn settings_start_with_the_writing_defaults() {
    let initial = WritingAppSettings::initial();
    assert!(!initial.show_git_panel);
    assert!(!initial.show_themes);
    assert!(!initial.show_icon_themes);
    assert!(!initial.show_extensions);
    assert!(initial.simplified_interface);
    assert!(!initial.show_api_settings);
    assert_eq!(initial.auto_save_interval_ms, Some(30000));
    assert!(initial.spelling_check_enabled);
    assert!(initial.grammar_check_enabled);
    assert!(initial.word_count_visible);
    assert!(initial.reading_time_visible);
    assert!(!initial.focus_mode_enabled);
}

#[test]
fn settings_load_the_users_or_the_defaults() {
    let defaults = WritingAppSettings::default();
    assert_eq!(defaults.auto_save_interval_ms, None);
    assert!(!defaults.simplified_interface && !defaults.spelling_check_enabled);
    assert_eq!(WritingAppSettings::load(None), defaults);
    let user = WritingAppSettings { focus_mode_enabled: true, ..WritingAppSettings::initial() };
    assert_eq!(WritingAppSettings::load(Some(&user)), user);
    assert_eq!(user.clone(), user);
}

#[test]
fn stored_instance_id_is_kept() {
    assert_eq!(resolve_instance_id(Some("abc".to_string())), ("abc".to_string(), false));
}

#[test]
fn missing_instance_id_is_made_anew() {
    let (first, fresh) = resolve_instance_id(None);
    assert!(fresh);
    assert!(!first.is_empty());
    let (second, _) = resolve_instance_id(None);
    assert_ne!(first, second);
    let (kept, fresh) = resolve_instance_id(Some(first.clone()));
    assert_eq!(kept, first);
    assert!(!fresh);
}

#[test]
fn test_instance_id_is_consistent() {
    let (id1, _) = resolve_instance_id(None);
    let (id2, _) = resolve_instance_id(Some(id1.clone()));
    assert_eq!(id1, id2);
}

#[test]
fn test_instance_paths_include_id() {
    let (id, _) = resolve_instance_id(None);
    let config = instance_path("/tmp", "editor", &id);
    assert!(config.contains(&id));
}
