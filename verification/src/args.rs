//! The command line of the previewer, once parsed.
use vstd::prelude::*;

verus! {

/// What the command line asks for.
pub struct Args {
    /// Path to the Markdown file (or folder) to preview.
    pub file: String,
    /// Print the HTML to stdout instead of opening a browser.
    pub no_open: bool,
    /// Re-render on every save of the file.
    pub watch: bool,
    /// Keep the preview file after exit.
    pub save: Option<bool>,
    /// Print extra diagnostic output.
    pub verbose: bool,
    /// Theme to use: "light", "dark" or "github".
    pub theme: Option<String>,
    /// Path to a custom CSS file, which overrides the theme.
    pub css: Option<String>,
    /// Output filename for the preview HTML.
    pub output: Option<String>,
    /// Generate a table of contents.
    pub toc: bool,
    /// Path to a custom HTML template file.
    pub template: Option<String>,
    /// Port to serve the preview on.
    pub port: Option<u16>,
}

/// The message given when the path to preview does not exist.
pub const PATH_NOT_FOUND: &'static str = "Path not found: ";

/// Accepts the parsed command line when the path it names exists
/// (`file_exists`), and otherwise refuses it with `Path not found: <path>`.
pub fn parse_args(args: Args, file_exists: bool) -> (r: Result<Args, String>)
    ensures
        file_exists ==> r == Ok::<Args, String>(args),
        !file_exists ==> (r matches Err(msg) && msg@ == PATH_NOT_FOUND@ + args.file@),
{
    if !file_exists {
        let mut msg = String::from_str(PATH_NOT_FOUND);
        msg.append(args.file.as_str());
        return Err(msg);
    }
    Ok(args)
}

} // verus!
