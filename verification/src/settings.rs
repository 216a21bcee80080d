//! The user's settings and how stored settings are completed on loading.

use vstd::prelude::*;

verus! {

pub struct Settings {
    pub download_dir: String,
    pub concurrency: u32,
    pub filename_template: String,
    /// "mp4-<height>" | "mp3" | "m4a"
    pub default_format: String,
}

pub struct SettingsView {
    pub download_dir: Seq<char>,
    pub concurrency: u32,
    pub filename_template: Seq<char>,
    pub default_format: Seq<char>,
}

impl View for Settings {
    type V = SettingsView;

    open spec fn view(&self) -> SettingsView {
        SettingsView {
            download_dir: self.download_dir@,
            concurrency: self.concurrency,
            filename_template: self.filename_template@,
            default_format: self.default_format@,
        }
    }
}

/// The settings before anything is stored: no download directory yet (it is
/// filled in on loading), two concurrent downloads, files named after the
/// title, 1080p MP4.
pub open spec fn default_settings() -> SettingsView {
    SettingsView {
        download_dir: Seq::empty(),
        concurrency: 2,
        filename_template: "%(title)s.%(ext)s"@,
        default_format: "mp4-1080"@,
    }
}

impl Default for Settings {
    fn default() -> (r: Settings)
        ensures
            r@ == default_settings(),
    {
        Settings {
            download_dir: String::new(),
            concurrency: 2,
            filename_template: String::from_str("%(title)s.%(ext)s"),
            default_format: String::from_str("mp4-1080"),
        }
    }
}

/// Settings as loaded: what was stored (the defaults if nothing could be
/// read), an empty download directory replaced by `downloads_dir`, and a
/// concurrency of 0 raised to 1.
pub open spec fn loaded_settings(stored: Option<SettingsView>, downloads_dir: Seq<char>) -> SettingsView {
    let base = match stored {
        Some(s) => s,
        None => default_settings(),
    };
    SettingsView {
        download_dir: if base.download_dir.len() == 0 {
            downloads_dir
        } else {
            base.download_dir
        },
        concurrency: if base.concurrency == 0 {
            1
        } else {
            base.concurrency
        },
        ..base
    }
}

pub open spec fn stored_view(stored: Option<Settings>) -> Option<SettingsView> {
    match stored {
        Some(s) => Some(s@),
        None => None,
    }
}

/// Completes the settings read from storage (`None` if there were none or
/// they could not be read); `downloads_dir` is the directory used when none
/// is set.
pub fn load_settings(stored: Option<Settings>, downloads_dir: &str) -> (r: Settings)
    ensures
        r@ == loaded_settings(stored_view(stored), downloads_dir@),
{
    let mut s = match stored {
        Some(s) => s,
        None => Settings::default(),
    };
    if s.download_dir.as_str().is_empty() {
        s.download_dir = String::from_str(downloads_dir);
    }
    if s.concurrency == 0 {
        s.concurrency = 1;
    }
    s
}

/// Loaded settings always allow at least one download, and loading them
/// again changes nothing (given a non-empty directory to fall back to).
pub proof fn law_loaded_settings_stable(stored: Option<SettingsView>, downloads_dir: Seq<char>)
    requires
        downloads_dir.len() > 0,
    ensures
        loaded_settings(stored, downloads_dir).concurrency >= 1,
        loaded_settings(stored, downloads_dir).download_dir.len() > 0,
        loaded_settings(Some(loaded_settings(stored, downloads_dir)), downloads_dir)
            == loaded_settings(stored, downloads_dir),
{
}

} // verus!
