//! The settings that outlive a run, and the texts under which they are stored.

use vstd::prelude::*;
#[allow(unused_imports)]
use vstd::string::*;

verus! {

/// What the user has set.
#[derive(Debug)]
pub struct AppSettings {
    /// Only networks whose SSID contains this text are plotted.
    pub ssid_filter: String,
    /// Whether the channel heatmap is shown.
    pub show_heatmap: bool,
    /// Whether incoming snapshots are dropped.
    pub paused: bool,
}

/// The texts that a storage holds for the settings; `None` where it holds nothing.
#[derive(Debug)]
pub struct StoredSettings {
    pub ssid_filter: Option<String>,
    pub show_heatmap: Option<String>,
    pub paused: Option<String>,
}

/// [`AppSettings`] with the filter as a character sequence.
#[verifier::ext_equal]
pub struct SettingsView {
    pub ssid_filter: Seq<char>,
    pub show_heatmap: bool,
    pub paused: bool,
}

/// [`StoredSettings`] with the texts as character sequences.
#[verifier::ext_equal]
pub struct StoredView {
    pub ssid_filter: Option<Seq<char>>,
    pub show_heatmap: Option<Seq<char>>,
    pub paused: Option<Seq<char>>,
}

impl View for AppSettings {
    type V = SettingsView;

    open spec fn view(&self) -> SettingsView {
        SettingsView {
            ssid_filter: self.ssid_filter@,
            show_heatmap: self.show_heatmap,
            paused: self.paused,
        }
    }
}

/// The text in an optional string.
pub open spec fn text_view(text: Option<String>) -> Option<Seq<char>> {
    match text {
        Some(held) => Some(held@),
        None => None,
    }
}

impl View for StoredSettings {
    type V = StoredView;

    open spec fn view(&self) -> StoredView {
        StoredView {
            ssid_filter: text_view(self.ssid_filter),
            show_heatmap: text_view(self.show_heatmap),
            paused: text_view(self.paused),
        }
    }
}

/// The text under which a flag is stored.
pub open spec fn flag_text(flag: bool) -> Seq<char> {
    if flag {
        "true"@
    } else {
        "false"@
    }
}

/// Settings as nobody has changed them.
pub open spec fn default_settings() -> SettingsView {
    SettingsView { ssid_filter: Seq::empty(), show_heatmap: false, paused: false }
}

/// The settings that stored texts stand for. A filter that is not there is empty; a flag
/// is set only by the text that stands for a set flag.
pub open spec fn restored(stored: StoredView) -> SettingsView {
    SettingsView {
        ssid_filter: match stored.ssid_filter {
            Some(filter) => filter,
            None => Seq::empty(),
        },
        show_heatmap: stored.show_heatmap == Some(flag_text(true)),
        paused: stored.paused == Some(flag_text(true)),
    }
}

/// The texts under which settings are stored.
pub open spec fn stored(settings: SettingsView) -> StoredView {
    StoredView {
        ssid_filter: Some(settings.ssid_filter),
        show_heatmap: Some(flag_text(settings.show_heatmap)),
        paused: Some(flag_text(settings.paused)),
    }
}

/// Read a stored flag. A text that stands for no flag, or no text at all, is `false`.
pub fn parse_stored_bool(value: &Option<String>) -> (flag: bool)
    ensures
        flag == (text_view(*value) == Some(flag_text(true))),
        flag <==> value is Some && value->Some_0@ == "true"@,
{
    match value {
        Some(text) => *text == "true".to_owned(),
        None => false,
    }
}

/// The text under which a flag is stored.
pub fn stored_bool(flag: bool) -> (text: String)
    ensures
        text@ == flag_text(flag),
        flag ==> text@ == "true"@,
        !flag ==> text@ == "false"@,
{
    if flag {
        "true".to_owned()
    } else {
        "false".to_owned()
    }
}

impl Default for AppSettings {
    fn default() -> (settings: AppSettings)
        ensures
            settings@ == default_settings(),
    {
        AppSettings { ssid_filter: String::new(), show_heatmap: false, paused: false }
    }
}

impl AppSettings {
    /// Restore settings from storage; without one they have their defaults.
    pub fn load(storage: Option<StoredSettings>) -> (settings: AppSettings)
        ensures
            settings@ == match storage {
                Some(held) => restored(held@),
                None => default_settings(),
            },
    {
        match storage {
            Some(held) => {
                let show_heatmap: bool = parse_stored_bool(&held.show_heatmap);
                let paused: bool = parse_stored_bool(&held.paused);
                let ssid_filter: String = match held.ssid_filter {
                    Some(filter) => filter,
                    None => String::new(),
                };
                AppSettings { ssid_filter, show_heatmap, paused }
            },
            None => AppSettings::default(),
        }
    }

    /// Let every network be plotted again.
    pub fn clear_filter(&mut self)
        ensures
            final(self)@ == (SettingsView { ssid_filter: Seq::empty(), ..old(self)@ }),
    {
        self.ssid_filter = String::new();
    }

    /// The texts to store.
    pub fn save(&self) -> (texts: StoredSettings)
        ensures
            texts@ == stored(self@),
    {
        StoredSettings {
            ssid_filter: Some(self.ssid_filter.clone()),
            show_heatmap: Some(stored_bool(self.show_heatmap)),
            paused: Some(stored_bool(self.paused)),
        }
    }
}

/// Settings that are saved and loaded again are the same.
pub proof fn law_settings_survive(settings: SettingsView)
    ensures
        restored(stored(settings)) == settings,
{
    reveal_strlit("true");
    reveal_strlit("false");
    assert("true"@.len() != "false"@.len());
}

/// Loading from an empty storage gives the defaults.
pub proof fn law_empty_storage_gives_defaults(texts: StoredView)
    requires
        texts.ssid_filter is None,
        texts.show_heatmap is None,
        texts.paused is None,
    ensures
        restored(texts) == default_settings(),
{
}

/// Settings, stored or not, are seen with all their fields.
pub proof fn law_settings_views_hold_every_field(settings: AppSettings, texts: StoredSettings)
    ensures
        settings@.ssid_filter == settings.ssid_filter@,
        settings@.show_heatmap == settings.show_heatmap,
        settings@.paused == settings.paused,
        texts@.ssid_filter is Some <==> texts.ssid_filter is Some,
        texts@.show_heatmap is Some <==> texts.show_heatmap is Some,
        texts@.paused is Some <==> texts.paused is Some,
        texts.ssid_filter matches Some(text) ==> texts@.ssid_filter == Some(text@),
        texts.show_heatmap matches Some(text) ==> texts@.show_heatmap == Some(text@),
        texts.paused matches Some(text) ==> texts@.paused == Some(text@),
{
}

/// Each setting is restored from its own text alone: the filter is the stored text, and a
/// flag is set exactly if its text reads `true`. Without a storage nothing is set.
pub proof fn law_settings_are_restored_one_by_one(texts: StoredView)
    ensures
        texts.ssid_filter matches Some(text) ==> restored(texts).ssid_filter == text,
        texts.ssid_filter is None ==> restored(texts).ssid_filter.len() == 0,
        restored(texts).show_heatmap <==> texts.show_heatmap is Some && texts.show_heatmap->Some_0
            == "true"@,
        restored(texts).paused <==> texts.paused is Some && texts.paused->Some_0 == "true"@,
        default_settings().ssid_filter.len() == 0,
        !default_settings().show_heatmap,
        !default_settings().paused,
{
}

/// Each setting is stored under a text of its own: the filter as it is, and a flag as `true`
/// or `false`.
pub proof fn law_settings_are_stored_one_by_one(settings: SettingsView)
    ensures
        stored(settings).ssid_filter == Some(settings.ssid_filter),
        settings.show_heatmap ==> stored(settings).show_heatmap == Some("true"@),
        !settings.show_heatmap ==> stored(settings).show_heatmap == Some("false"@),
        settings.paused ==> stored(settings).paused == Some("true"@),
        !settings.paused ==> stored(settings).paused == Some("false"@),
{
}

} // verus!
