//! The version-control hook: which steps follow a change of the store.

use crate::order::views;
use crate::store::effect::{Effect, EffectView};
use vstd::prelude::*;

verus! {

/// The version-control tools that can keep the data directory.
#[derive(Clone, Copy, Debug, PartialEq, Eq, Structural)]
pub enum VcsType {
    Git,
}

/// What the settings file of a store says about version control.
#[derive(Clone, Copy, Debug, PartialEq, Eq, Structural)]
pub struct VcsSettings {
    pub vcs_type: VcsType,
}

/// What the configuration of this installation says about version control.
#[derive(Clone, Copy, Debug, PartialEq, Eq, Structural)]
pub struct VcsConfig {
    pub autocommit: bool,
    pub autopull: bool,
    pub autopush: bool,
}

impl Default for VcsSettings {
    fn default() -> (r: Self)
        ensures
            r == (VcsSettings { vcs_type: VcsType::Git }),
    {
        VcsSettings { vcs_type: VcsType::Git }
    }
}

impl Default for VcsConfig {
    fn default() -> (r: Self)
        ensures
            r == (VcsConfig { autocommit: true, autopull: false, autopush: false }),
    {
        VcsConfig { autocommit: true, autopull: false, autopush: false }
    }
}

/// The steps that record a change under `message`: none unless changes are
/// committed automatically; else everything is staged and committed, then
/// pulled and pushed as far as the configuration asks for it.
pub open spec fn commit_plan(message: Seq<char>, config: VcsConfig) -> Seq<EffectView> {
    if !config.autocommit {
        Seq::empty()
    } else {
        seq![EffectView::VcsAdd, EffectView::VcsCommit { message }] + (if config.autopull {
            seq![EffectView::VcsPull]
        } else {
            Seq::empty()
        }) + (if config.autopush {
            seq![EffectView::VcsPush]
        } else {
            Seq::empty()
        })
    }
}

/// The steps of the hook that the settings of a store ask for: none where
/// they name no version control.
pub open spec fn hook_plan(
    vcs: Option<VcsSettings>,
    message: Seq<char>,
    config: VcsConfig,
) -> Seq<EffectView> {
    match vcs {
        Some(_) => commit_plan(message, config),
        None => Seq::empty(),
    }
}

impl VcsSettings {
    /// The steps that record a change of the data directory under `message`.
    pub fn commit(&self, message: &str, config: &VcsConfig) -> (r: Vec<Effect>)
        ensures
            views(r@) == commit_plan(message@, *config),
    {
        let mut steps: Vec<Effect> = Vec::new();
        if !config.autocommit {
            assert(views(steps@) =~= commit_plan(message@, *config));
            return steps;
        }
        match self.vcs_type {
            VcsType::Git => {
                steps.push(Effect::VcsAdd);
                steps.push(Effect::VcsCommit { message: message.to_owned() });
                if config.autopull {
                    steps.push(Effect::VcsPull);
                }
                if config.autopush {
                    steps.push(Effect::VcsPush);
                }
            },
        }
        assert(views(steps@) =~= commit_plan(message@, *config));
        steps
    }
}

} // verus!
