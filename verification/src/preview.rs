//! The decisions of a preview session: which stylesheet, which output file,
//! whether the preview file stays, and what a change of the watched file asks for.
use vstd::prelude::*;

use crate::args::Args;
use crate::config::Config;

verus! {

/// The preview file of a session and whether it is kept after exit.
pub struct TempPreview {
    pub path: String,
    pub save: bool,
}

impl TempPreview {
    /// A preview file at `path`, kept after exit when `save` holds.
    pub fn new(path: String, save: bool) -> (t: TempPreview)
        ensures
            t.path == path,
            t.save == save,
    {
        TempPreview { path, save }
    }

    /// Tells whether the preview file is to be removed when the session ends:
    /// exactly when it is not saved.
    pub fn removes_on_exit(&self) -> (r: bool)
        ensures
            r == !self.save,
    {
        !self.save
    }
}

/// The built-in stylesheets.
pub enum Theme {
    Light,
    Dark,
    Github,
}

/// Where the stylesheet of the preview comes from.
pub enum CssSource {
    /// A CSS file given on the command line.
    File(String),
    /// One of the built-in themes.
    Builtin(Theme),
}

/// The theme named `name`: `dark` and `github` name themes of their own, any
/// other name gives the light one.
pub open spec fn spec_theme_of(name: Seq<char>) -> Theme {
    if name == "dark"@ {
        Theme::Dark
    } else if name == "github"@ {
        Theme::Github
    } else {
        Theme::Light
    }
}

/// The theme that a name selects.
pub fn theme_of(name: &str) -> (t: Theme)
    ensures
        t == spec_theme_of(name@),
{
    let n = String::from_str(name);
    if n == String::from_str("dark") {
        Theme::Dark
    } else if n == String::from_str("github") {
        Theme::Github
    } else {
        Theme::Light
    }
}

/// The theme name in force: the command line's, else the configuration's, else `light`.
pub open spec fn spec_theme_name(args: Args, config: Config) -> Seq<char> {
    match args.theme {
        Some(t) => t@,
        None => match config.theme {
            Some(t) => t@,
            None => "light"@,
        },
    }
}

/// The theme name in force.
pub fn resolve_theme_name(args: &Args, config: &Config) -> (r: String)
    ensures
        r@ == spec_theme_name(*args, *config),
{
    match &args.theme {
        Some(t) => t.clone(),
        None => match &config.theme {
            Some(t) => t.clone(),
            None => String::from_str("light"),
        },
    }
}

/// Where the stylesheet comes from: the CSS file of the command line when one
/// is given, else the theme in force.
pub fn resolve_css(args: &Args, config: &Config) -> (r: CssSource)
    ensures
        args.css matches Some(path) ==> (r matches CssSource::File(p) && p@ == path@),
        args.css is None ==> r == CssSource::Builtin(spec_theme_of(spec_theme_name(*args, *config))),
{
    match &args.css {
        Some(path) => CssSource::File(path.clone()),
        None => {
            let name = resolve_theme_name(args, config);
            CssSource::Builtin(theme_of(name.as_str()))
        },
    }
}

/// The name of the preview file: the command line's, else the configuration's,
/// else `preview.html`.
pub open spec fn spec_output_filename(args: Args, config: Config) -> Seq<char> {
    match args.output {
        Some(o) => o@,
        None => match config.output_filename {
            Some(o) => o@,
            None => "preview.html"@,
        },
    }
}

/// The name of the preview file.
pub fn resolve_output_filename(args: &Args, config: &Config) -> (r: String)
    ensures
        r@ == spec_output_filename(*args, *config),
{
    match &args.output {
        Some(o) => o.clone(),
        None => match &config.output_filename {
            Some(o) => o.clone(),
            None => String::from_str("preview.html"),
        },
    }
}

/// Whether the preview file is kept: the command line's choice, else the
/// configuration's, else not.
pub fn resolve_save(args: &Args, config: &Config) -> (r: bool)
    ensures
        r == match args.save {
            Some(s) => s,
            None => match config.save {
                Some(s) => s,
                None => false,
            },
        },
{
    match args.save {
        Some(s) => s,
        None => match config.save {
            Some(s) => s,
            None => false,
        },
    }
}

/// What the file watcher reports.
pub enum WatchEvent {
    /// The watched file was modified.
    Modified,
    /// Something else happened to it.
    Other,
    /// The watcher failed.
    Failed,
}

/// What a session does on a watcher report.
pub enum WatchAction {
    /// Render the file again and rewrite the preview.
    Regenerate,
    /// Nothing.
    Ignore,
    /// Report the watcher's error and go on.
    Report,
}

/// A modification asks for a new rendering, a failure is reported, anything
/// else is ignored.
pub fn watch_action(event: WatchEvent) -> (a: WatchAction)
    ensures
        event is Modified <==> a is Regenerate,
        event is Failed <==> a is Report,
        event is Other <==> a is Ignore,
{
    match event {
        WatchEvent::Modified => WatchAction::Regenerate,
        WatchEvent::Other => WatchAction::Ignore,
        WatchEvent::Failed => WatchAction::Report,
    }
}

} // verus!
