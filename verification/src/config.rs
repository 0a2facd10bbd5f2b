//! The configuration of a user.

use vstd::prelude::*;
use vstd::string::*;

use crate::naming::{NamingConfig, NamingModel};
use crate::paths::parts;
use crate::pattern::{copy_opt, opt_view, views};
use crate::plan::ActionMode;
use crate::state::{law_own_file, own_file, own_path};
use crate::text::copy_of;

verus! {

/// The configuration of a user.
#[derive(Debug)]
pub struct UserConfig {
    /// How target names are made.
    pub suffix: NamingConfig,
    /// More extensions of videos.
    pub custom_video_exts: Vec<String>,
    /// More extensions of subtitles.
    pub custom_subtitle_exts: Vec<String>,
    /// The pattern whose group 1 is the key of a video.
    pub video_regex: Option<String>,
    /// The pattern whose group 1 is the key of a subtitle.
    pub subtitle_regex: Option<String>,
    /// Where subtitles go.
    pub action_mode: ActionMode,
    /// Whether the window stays on top.
    pub always_on_top: bool,
}

/// What a [`UserConfig`] stands for.
pub struct ConfigModel {
    pub suffix: NamingModel,
    pub custom_video_exts: Seq<Seq<char>>,
    pub custom_subtitle_exts: Seq<Seq<char>>,
    pub video_regex: Option<Seq<char>>,
    pub subtitle_regex: Option<Seq<char>>,
    pub action_mode: ActionMode,
    pub always_on_top: bool,
}

impl View for UserConfig {
    type V = ConfigModel;

    open spec fn view(&self) -> ConfigModel {
        ConfigModel {
            suffix: self.suffix@,
            custom_video_exts: views(self.custom_video_exts@),
            custom_subtitle_exts: views(self.custom_subtitle_exts@),
            video_regex: opt_view(self.video_regex),
            subtitle_regex: opt_view(self.subtitle_regex),
            action_mode: self.action_mode,
            always_on_top: self.always_on_top,
        }
    }
}

impl Default for UserConfig {
    /// Nothing is configured: the default template, no patterns, subtitles stay in their
    /// directory.
    fn default() -> (r: Self)
        ensures
            r@ == (ConfigModel {
                suffix: NamingModel {
                    template: Seq::empty(),
                    auto_fill_lang: false,
                    case_sensitive: false,
                    mappings: Seq::empty(),
                },
                custom_video_exts: Seq::empty(),
                custom_subtitle_exts: Seq::empty(),
                video_regex: None,
                subtitle_regex: None,
                action_mode: ActionMode::Rename,
                always_on_top: false,
            }),
    {
        let r = UserConfig {
            suffix: NamingConfig::default(),
            custom_video_exts: Vec::new(),
            custom_subtitle_exts: Vec::new(),
            video_regex: None,
            subtitle_regex: None,
            action_mode: ActionMode::default(),
            always_on_top: false,
        };
        assert(r@.custom_video_exts =~= Seq::empty());
        assert(r@.custom_subtitle_exts =~= Seq::empty());
        r
    }
}

impl Clone for UserConfig {
    fn clone(&self) -> (r: Self)
        ensures
            r@ == self@,
    {
        UserConfig {
            suffix: self.suffix.clone(),
            custom_video_exts: copy_all(&self.custom_video_exts),
            custom_subtitle_exts: copy_all(&self.custom_subtitle_exts),
            video_regex: copy_opt(&self.video_regex),
            subtitle_regex: copy_opt(&self.subtitle_regex),
            action_mode: self.action_mode,
            always_on_top: self.always_on_top,
        }
    }
}

/// A second value for the same strings.
pub fn copy_all(v: &Vec<String>) -> (r: Vec<String>)
    ensures
        views(r@) == views(v@),
{
    let mut out: Vec<String> = Vec::new();
    let mut i: usize = 0;
    while i < v.len()
        invariant
            i <= v@.len(),
            out@.len() == i,
            forall|j: int| 0 <= j < i ==> (#[trigger] out@[j])@ == v@[j]@,
        decreases v@.len() - i,
    {
        out.push(copy_of(v[i].as_str()));
        i += 1;
    }
    assert(views(out@) =~= views(v@));
    out
}

/// Calls `dirs::config_dir`, the directory for the configuration of programs. It depends
/// on the machine and the environment, and nothing is said of it. What is not Unicode in
/// its path is replaced.
#[verifier::external_body]
fn config_dir() -> (r: Option<String>) {
    dirs::config_dir().map(|p| p.to_string_lossy().into_owned())
}

/// `path` is where the configuration is: below the directory that `config_dir` gives, or
/// below the working directory where it gives none.
pub closed spec fn is_config_path(path: Seq<char>) -> bool {
    exists|base: Option<String>| #[trigger]
        call_ensures(config_dir, (), base) && path == own_file(opt_view(base), "config.toml"@)
}

/// Where the configuration is.
pub fn default_config_path() -> (r: String)
    ensures
        is_config_path(r@),
        exists|base: Option<Seq<char>>| r@ == own_file(base, "config.toml"@),
{
    let base = config_dir();
    assert(call_ensures(config_dir, (), base));
    let r = own_path(base, "config.toml");
    assert(r@ == own_file(opt_view(base), "config.toml"@));
    r
}

/// The configuration is a file of its own in the directory of this program, wherever that is.
pub proof fn law_config_path(path: Seq<char>)
    requires
        is_config_path(path),
    ensures
        exists|base: Seq<char>| parts(path) == #[trigger] parts(base).push(
            "subtitle-renamer"@,
        ).push("config.toml"@),
{
    let base = choose|base: Option<String>| #[trigger]
        call_ensures(config_dir, (), base) && path == own_file(opt_view(base), "config.toml"@);
    let name = "config.toml"@;
    reveal_strlit("config.toml");
    assert(name.len() == 11);
    assert(name[0] == 'c');
    assert(!name.contains('/'));
    let b = match opt_view(base) {
        Some(b) => b,
        None => "."@,
    };
    law_own_file(b, name);
    assert(parts(path) == parts(b).push("subtitle-renamer"@).push(name));
}

} // verus!
