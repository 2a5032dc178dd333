//! The terminal view.

pub mod area;
pub mod drawn;
pub mod footer;
pub mod hit;
pub mod input;
pub mod lines;
pub mod render;
pub mod spans;
pub mod style;
pub mod ui;
pub mod viewer;

use vstd::prelude::*;

use crate::preview::{PreviewOptions, DEFAULT_MAX_BYTES};

verus! {

#[derive(Debug)]
pub struct TuiOptions {
    pub mouse: bool,
    /// Single-clicking a directory name toggles it, the way VS Code's explorer
    /// behaves. With this off, only the twistie toggles.
    pub click_toggles_dirs: bool,
    /// Shown at the front of the status bar; the web view puts its URL here.
    pub status_note: Option<String>,
    /// `None` leaves the terminal with no file pane at all, which is what
    /// `--no-preview` means here.
    pub preview: Option<PreviewOptions>,
    /// Color file contents by asking `bat`, when there is one.
    pub highlight: bool,
}

impl Default for TuiOptions {
    fn default() -> (o: TuiOptions)
        ensures
            o.mouse,
            o.click_toggles_dirs,
            o.status_note is None,
            o.preview == Some(PreviewOptions { max_bytes: DEFAULT_MAX_BYTES }),
            o.highlight,
    {
        TuiOptions {
            mouse: true,
            click_toggles_dirs: true,
            status_note: None,
            preview: Some(PreviewOptions::default()),
            highlight: true,
        }
    }
}

/// Which pane has the keyboard. The tree's cursor and the file's scroll are
/// two different positions, and `↑↓` has to mean one of them.
#[derive(Debug, Clone, Copy, PartialEq, Eq, Structural)]
pub enum Focus {
    Tree,
    Viewer,
}

} // verus!
