//! Settings of the writing application.

use vstd::prelude::*;

verus! {

#[derive(Debug, PartialEq, Eq)]
pub struct WritingAppSettings {
    pub show_git_panel: bool,
    pub show_themes: bool,
    pub show_icon_themes: bool,
    pub show_extensions: bool,
    pub simplified_interface: bool,
    pub show_api_settings: bool,
    pub auto_save_interval_ms: Option<u64>,
    pub spelling_check_enabled: bool,
    pub grammar_check_enabled: bool,
    pub word_count_visible: bool,
    pub reading_time_visible: bool,
    pub focus_mode_enabled: bool,
}

impl WritingAppSettings {
    /// Every switch off and no auto-save.
    pub open spec fn spec_default() -> WritingAppSettings {
        WritingAppSettings {
            show_git_panel: false,
            show_themes: false,
            show_icon_themes: false,
            show_extensions: false,
            simplified_interface: false,
            show_api_settings: false,
            auto_save_interval_ms: None,
            spelling_check_enabled: false,
            grammar_check_enabled: false,
            word_count_visible: false,
            reading_time_visible: false,
            focus_mode_enabled: false,
        }
    }

    /// The settings with which the application starts: the features for
    /// developers hidden, the interface simplified, the aids for writing on
    /// (but for the focus mode), and auto-save every 30 seconds.
    pub open spec fn spec_initial() -> WritingAppSettings {
        WritingAppSettings {
            show_git_panel: false,
            show_themes: false,
            show_icon_themes: false,
            show_extensions: false,
            simplified_interface: true,
            show_api_settings: false,
            auto_save_interval_ms: Some(30000u64),
            spelling_check_enabled: true,
            grammar_check_enabled: true,
            word_count_visible: true,
            reading_time_visible: true,
            focus_mode_enabled: false,
        }
    }

    /// The settings with which the application starts.
    pub fn initial() -> (settings: WritingAppSettings)
        ensures
            settings == Self::spec_initial(),
    {
        WritingAppSettings {
            show_git_panel: false,
            show_themes: false,
            show_icon_themes: false,
            show_extensions: false,
            simplified_interface: true,
            show_api_settings: false,
            auto_save_interval_ms: Some(30000),
            spelling_check_enabled: true,
            grammar_check_enabled: true,
            word_count_visible: true,
            reading_time_visible: true,
            focus_mode_enabled: false,
        }
    }

    /// The settings in force: the user's, where there are any, else the
    /// defaults.
    pub fn load(user: Option<&WritingAppSettings>) -> (settings: WritingAppSettings)
        ensures
            settings == match user {
                Some(user) => *user,
                None => Self::spec_default(),
            },
    {
        match user {
            Some(user) => user.clone(),
            None => WritingAppSettings::default(),
        }
    }
}

impl Default for WritingAppSettings {
    fn default() -> (settings: Self)
        ensures
            settings == Self::spec_default(),
    {
        WritingAppSettings {
            show_git_panel: false,
            show_themes: false,
            show_icon_themes: false,
            show_extensions: false,
            simplified_interface: false,
            show_api_settings: false,
            auto_save_interval_ms: None,
            spelling_check_enabled: false,
            grammar_check_enabled: false,
            word_count_visible: false,
            reading_time_visible: false,
            focus_mode_enabled: false,
        }
    }
}

impl Clone for WritingAppSettings {
    fn clone(&self) -> (copy: Self)
        ensures
            copy == *self,
    {
        WritingAppSettings {
            show_git_panel: self.show_git_panel,
            show_themes: self.show_themes,
            show_icon_themes: self.show_icon_themes,
            show_extensions: self.show_extensions,
            simplified_interface: self.simplified_interface,
            show_api_settings: self.show_api_settings,
            auto_save_interval_ms: self.auto_save_interval_ms,
            spelling_check_enabled: self.spelling_check_enabled,
            grammar_check_enabled: self.grammar_check_enabled,
            word_count_visible: self.word_count_visible,
            reading_time_visible: self.reading_time_visible,
            focus_mode_enabled: self.focus_mode_enabled,
        }
    }
}

} // verus!
