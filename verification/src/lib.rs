//! An interactive directory tree that keeps its shape.
//!
//! The model, the expansion state and the syncing all live here, together with
//! everything two views of them decide: a terminal UI and a web server. None of
//! it touches the disk, the network or the terminal. Where something has to be
//! read, sent or drawn, a function says what, and another takes what came back.
//!
//! # The model
//!
//! [`Tree`] is an arena of nodes with expansion state on top. Directories load
//! lazily, and a refresh reconciles against what is already there so expansion
//! survives it: [`laws`] says what that means. [`scan`] turns what a directory
//! holds into a listing, and [`shown`] flattens the tree into rows.
//!
//! # Several views at once
//!
//! [`Session`] wraps a [`Tree`] so more than one view can drive it. Every view
//! (the terminal, each browser tab, the filesystem watcher) sends a [`Command`]
//! and observes a [`Snapshot`]. That is the whole of how they stay in step;
//! there is no second copy of the state anywhere.
//!
//! [`Row`] is the shared projection: one flattened, currently-visible line
//! carrying its own depth. Both renderers draw from it, and because a row's
//! index *is* its screen line, it is also what mouse clicks resolve against.
//!
//! ## The cursor and what it shows
//!
//! [`Snapshot::selected`] is where the cursor is and [`Snapshot::viewing`] is
//! the file on display, but they are not two steps: [`Tree::select`] shows
//! whatever the cursor can show, so one click or one arrow key is all it takes.
//! A directory has nothing of its own to display, so the file already up stays
//! up: moving through a tree is not a reason to blank the pane being read.
//! [`Tree::select_viewed`] is the way back: working that pane says the file is
//! the subject again, so the cursor rejoins it.
//!
//! [`Snapshot::view_line`] is the first visible line of that file, shared the
//! same way, with each view clamping it to its own height.
//!
//! Both views show the file's contents, and neither is handed them: the session
//! says *which* file, and each view reads it through [`preview`] for itself.
//!
//! [`git`] answers the other question a tree wants asked of a repository (what
//! it would ignore) with what `git check-ignore` says rather than from rule
//! files, so nested, negated and global rules all behave as git's do.
//! [`Row::ignored`] is that answer; no view hides those rows, they are drawn
//! dimmed.
//!
//! # Colors
//!
//! [`highlight`] colors a file with what the user's own `bat` prints, reading the
//! ANSI back, so there is no highlighting engine in the dependency tree and no
//! theme of treex's own. It returns styled byte ranges over text the caller
//! already holds, and `None` where there is no `bat`; a view that draws the
//! plain text on `None` needs no other fallback.
//!
//! # The views
//!
//! [`tui`] is the terminal: where everything goes, what keys and clicks mean,
//! and one screen's own state. [`web`] is the server: requests, responses, what
//! each socket is owed. [`watch`] says what filesystem events come to, and
//! [`cli`] what the command line does.

pub mod arena;
pub mod cli;
pub mod error;
pub mod git;
pub mod highlight;
pub mod laws;
pub mod node;
pub mod order;
pub mod outline;
pub mod path;
pub mod preview;
pub mod promises;
pub mod redraw;
pub mod scan;
pub mod shown;
pub mod state;
pub mod text;
pub mod tree;
pub mod tui;
pub mod visibility;
pub mod watch;
pub mod web;

pub use error::{Error, Result};
pub use preview::{Preview, PreviewOptions};
pub use state::{Command, Session, Snapshot};
pub use tree::{Node, NodeId, Row, ScanOptions, Tree};
