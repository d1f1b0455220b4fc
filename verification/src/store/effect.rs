//! What has to happen outside the image after an operation: file operations
//! below the data directory, and steps of the version-control hook.

use crate::order::views;
use vstd::prelude::*;

verus! {

/// One step for the caller to carry out. Paths are lists of components
/// below the data directory.
#[derive(Clone, Debug, PartialEq, Eq)]
pub enum Effect {
    /// Create the directory and every missing parent.
    CreateDir { path: Vec<String> },
    /// Create the file or replace its content.
    WriteFile { path: Vec<String>, bytes: Vec<u8> },
    /// Append to the file, creating it if it is absent.
    AppendFile { path: Vec<String>, bytes: Vec<u8> },
    /// Write the content to a fresh temporary file, then put it in the place
    /// of the file.
    ReplaceFile { path: Vec<String>, bytes: Vec<u8> },
    /// Remove the file.
    RemoveFile { path: Vec<String> },
    /// Remove the directory and all below it, if it exists.
    RemoveTree { path: Vec<String> },
    /// Stage every change in the data directory.
    VcsAdd,
    /// Commit what is staged.
    VcsCommit { message: String },
    /// Pull from the upstream repository.
    VcsPull,
    /// Push to the upstream repository.
    VcsPush,
}

/// What an [`Effect`] holds.
pub enum EffectView {
    CreateDir { path: Seq<Seq<char>> },
    WriteFile { path: Seq<Seq<char>>, bytes: Seq<u8> },
    AppendFile { path: Seq<Seq<char>>, bytes: Seq<u8> },
    ReplaceFile { path: Seq<Seq<char>>, bytes: Seq<u8> },
    RemoveFile { path: Seq<Seq<char>> },
    RemoveTree { path: Seq<Seq<char>> },
    VcsAdd,
    VcsCommit { message: Seq<char> },
    VcsPull,
    VcsPush,
}

impl View for Effect {
    type V = EffectView;

    open spec fn view(&self) -> EffectView {
        match self {
            Effect::CreateDir { path } => EffectView::CreateDir { path: views(path@) },
            Effect::WriteFile { path, bytes } => EffectView::WriteFile {
                path: views(path@),
                bytes: bytes@,
            },
            Effect::AppendFile { path, bytes } => EffectView::AppendFile {
                path: views(path@),
                bytes: bytes@,
            },
            Effect::ReplaceFile { path, bytes } => EffectView::ReplaceFile {
                path: views(path@),
                bytes: bytes@,
            },
            Effect::RemoveFile { path } => EffectView::RemoveFile { path: views(path@) },
            Effect::RemoveTree { path } => EffectView::RemoveTree { path: views(path@) },
            Effect::VcsAdd => EffectView::VcsAdd,
            Effect::VcsCommit { message } => EffectView::VcsCommit { message: message@ },
            Effect::VcsPull => EffectView::VcsPull,
            Effect::VcsPush => EffectView::VcsPush,
        }
    }
}

} // verus!
