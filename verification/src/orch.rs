//! Build-run orchestration.
//!
//! One experiment run is a state machine: initialize the lineage and
//! snapshot the pristine source, run a clean build of the designated base
//! configuration, then for each remaining configuration run a clean build
//! and, independently, an incremental build on top of the base build's
//! branch.  Builds are strictly sequential — the build tool and the
//! working tree are singletons — so each step's decisions (which branch to
//! start from, what to label the new branch, whether to save the previous
//! configuration) are computed here, and the working-tree effects they
//! imply are tracked in a model the contracts speak about.
//!
//! A build's own failure never aborts a run: the working tree is
//! snapshotted after every attempt.  Only lineage failures are fatal.

use vstd::prelude::*;
use crate::bytes::views_of;
use crate::codec::{
    encode_clean_label, encode_incremental_label, spec_clean_label, spec_incr_label,
};
use crate::lineage::{
    branch_from, checkout_label, default_branch, head_commit, spec_default_branch, Git,
    LineageError,
};

verus! {

/// What one build attempt requires of the working tree: the branch to
/// start from, the label of the branch to create, and whether the active
/// configuration must be saved as the previous one before the new
/// configuration is applied.
pub struct BuildPlan {
    /// The branch the attempt starts from.
    pub parent_branch: Vec<u8>,
    /// The label of the branch this attempt creates.
    pub new_branch: Vec<u8>,
    /// Save the active configuration before overlaying the new one;
    /// set exactly for incremental builds.
    pub save_previous_config: bool,
}

/// The label and save decision for a build starting from `parent_branch`:
/// from the default branch, a clean build; from any other branch, an
/// incremental build that first saves the active configuration.
pub open spec fn spec_plan(parent_branch: Seq<u8>, config_id: Seq<u8>) -> (Seq<u8>, bool) {
    if parent_branch == spec_default_branch() {
        (spec_clean_label(config_id), false)
    } else {
        (spec_incr_label(parent_branch, config_id), true)
    }
}

/// Decides one build attempt's plan from the branch it starts from and
/// the configuration it applies.
pub fn plan_build_from(parent_branch: &[u8], config_id: &[u8]) -> (r: BuildPlan)
    ensures
        r.parent_branch@ == parent_branch@,
        r.new_branch@ == spec_plan(parent_branch@, config_id@).0,
        r.save_previous_config == spec_plan(parent_branch@, config_id@).1,
{
    let master = default_branch();
    if crate::bytes::bytes_eq(parent_branch, master.as_slice()) {
        BuildPlan {
            parent_branch: crate::bytes::to_vec(parent_branch),
            new_branch: encode_clean_label(config_id),
            save_previous_config: false,
        }
    } else {
        BuildPlan {
            parent_branch: crate::bytes::to_vec(parent_branch),
            new_branch: encode_incremental_label(parent_branch, config_id),
            save_previous_config: true,
        }
    }
}

/// Materializes the branch for one build attempt: checks the parent
/// branch out, creates the new branch at the parent's head commit, and
/// checks the new branch out.  Any failure here is fatal to the run.
pub fn prepare_build_branch(git: &Git, plan: &BuildPlan) -> (r: Result<(), LineageError>)
{
    match checkout_label(git, plan.parent_branch.as_slice()) {
        Ok(_) => (),
        Err(e) => {
            return Err(e);
        },
    };
    let last = match head_commit(git) {
        Ok(c) => c,
        Err(e) => {
            return Err(e);
        },
    };
    match branch_from(git, plan.new_branch.as_slice(), last) {
        Ok(_) => (),
        Err(e) => {
            return Err(e);
        },
    };
    checkout_label(git, plan.new_branch.as_slice())
}

/// The modeled working-tree and lineage state, as specification values:
/// the labels created so far (append-only), the active configuration's
/// contents, and the saved previous configuration's contents.
pub struct ModelState {
    pub labels: Seq<Seq<u8>>,
    pub wt_config: Option<Seq<u8>>,
    pub wt_prev_config: Option<Seq<u8>>,
}

/// A clean-build step: a new clean label, and the working tree's active
/// configuration becomes exactly the applied file's contents.
pub open spec fn spec_step_clean(m: ModelState, config_id: Seq<u8>, contents: Seq<u8>) -> ModelState {
    ModelState {
        labels: m.labels.push(spec_clean_label(config_id)),
        wt_config: Some(contents),
        wt_prev_config: m.wt_prev_config,
    }
}

/// An incremental-build step on top of the base build: a new incremental
/// label, the base build's configuration saved as the previous one, and
/// the active configuration becomes the applied file's contents.
pub open spec fn spec_step_incremental(
    m: ModelState,
    base_label: Seq<u8>,
    base_config: Seq<u8>,
    config_id: Seq<u8>,
    contents: Seq<u8>,
) -> ModelState {
    ModelState {
        labels: m.labels.push(spec_incr_label(base_label, config_id)),
        wt_config: Some(contents),
        wt_prev_config: Some(base_config),
    }
}

/// Where an experiment run stands.
#[derive(Clone, Copy, PartialEq, Eq, Structural, Debug)]
pub enum Phase {
    /// The lineage is initialized; no build has run.
    Init,
    /// The base configuration's clean build has been attempted and
    /// snapshotted; incremental builds may start from it.
    BaseBuilt,
}

/// One experiment run's orchestration state.
pub struct OrchState {
    /// Where the run stands.
    pub phase: Phase,
    /// The base build's label, once the base is built.
    pub base_label: Option<Vec<u8>>,
    /// The base configuration's contents, once the base is built.
    pub base_config: Option<Vec<u8>>,
    /// The active configuration's modeled contents.
    pub wt_config: Option<Vec<u8>>,
    /// The saved previous configuration's modeled contents.
    pub wt_prev_config: Option<Vec<u8>>,
    /// Every label created by this run, in order.
    pub labels: Vec<Vec<u8>>,
}

impl OrchState {
    /// The specification-level view of the modeled state.
    pub open spec fn model(self) -> ModelState {
        ModelState {
            labels: views_of(self.labels@),
            wt_config: match self.wt_config {
                Some(c) => Some(c@),
                None => None,
            },
            wt_prev_config: match self.wt_prev_config {
                Some(c) => Some(c@),
                None => None,
            },
        }
    }

    /// Before the base build, nothing is designated or recorded; after
    /// it, the baseline is a clean-build branch — never the default
    /// branch — and its configuration is held.
    pub open spec fn wf(self) -> bool {
        match self.phase {
            Phase::Init => self.base_label is None && self.labels@.len() == 0,
            Phase::BaseBuilt => self.base_label is Some && self.base_config is Some
                && crate::codec::spec_clean_suffix().is_suffix_of(self.base_label.unwrap()@),
        }
    }

    /// Starts a run, before any build.
    pub fn start() -> (r: OrchState)
        ensures
            r.wf(),
            r.phase is Init,
            r.model().labels == Seq::<Seq<u8>>::empty(),
            r.model().wt_config is None,
    {
        let r = OrchState {
            phase: Phase::Init,
            base_label: None,
            base_config: None,
            wt_config: None,
            wt_prev_config: None,
            labels: Vec::new(),
        };
        proof {
            assert(views_of(r.labels@) =~= Seq::<Seq<u8>>::empty());
        }
        r
    }

    /// The base configuration's clean build: branched from the default
    /// branch, and designated as the baseline every later incremental
    /// build starts from.  The label is recorded before any outcome
    /// exists: a failing build keeps its place in the lineage.
    pub fn step_base(&mut self, base_config_id: &[u8], contents: &[u8]) -> (r: BuildPlan)
        requires
            old(self).wf(),
            old(self).phase is Init,
        ensures
            final(self).wf(),
            final(self).phase is BaseBuilt,
            r.parent_branch@ == spec_default_branch(),
            r.new_branch@ == spec_clean_label(base_config_id@),
            !r.save_previous_config,
            final(self).model() == spec_step_clean(old(self).model(), base_config_id@, contents@),
            final(self).base_label matches Some(l) && l@ == spec_clean_label(base_config_id@),
            final(self).base_config matches Some(c) && c@ == contents@,
    {
        let master = default_branch();
        let plan = plan_build_from(master.as_slice(), base_config_id);
        proof {
            let label = spec_clean_label(base_config_id@);
            assert(label.subrange(label.len() - 3, label.len() as int)
                =~= crate::codec::spec_clean_suffix());
        }
        self.phase = Phase::BaseBuilt;
        self.base_label = Some(crate::bytes::to_vec(plan.new_branch.as_slice()));
        self.base_config = Some(crate::bytes::to_vec(contents));
        self.wt_config = Some(crate::bytes::to_vec(contents));
        let label = crate::bytes::to_vec(plan.new_branch.as_slice());
        proof {
            assert(views_of(self.labels@.push(label)) =~= views_of(self.labels@).push(label@));
        }
        self.labels.push(label);
        plan
    }

    /// A configuration's clean build: branched from the default branch,
    /// with the working tree's active configuration becoming exactly this
    /// configuration's contents.  The label is recorded before any outcome
    /// exists: a failing build keeps its place in the lineage.
    pub fn step_clean(&mut self, config_id: &[u8], contents: &[u8]) -> (r: BuildPlan)
        requires
            old(self).wf(),
            old(self).phase is BaseBuilt,
        ensures
            final(self).wf(),
            final(self).phase is BaseBuilt,
            r.parent_branch@ == spec_default_branch(),
            r.new_branch@ == spec_clean_label(config_id@),
            !r.save_previous_config,
            final(self).model() == spec_step_clean(old(self).model(), config_id@, contents@),
            final(self).base_label == old(self).base_label,
            final(self).base_config == old(self).base_config,
    {
        let master = default_branch();
        let plan = plan_build_from(master.as_slice(), config_id);
        self.wt_config = Some(crate::bytes::to_vec(contents));
        let label = crate::bytes::to_vec(plan.new_branch.as_slice());
        proof {
            assert(views_of(self.labels@.push(label)) =~= views_of(self.labels@).push(label@));
        }
        self.labels.push(label);
        plan
    }

    /// A configuration's incremental build: branched from the base
    /// build's branch, whose configuration is first saved as the previous
    /// one, before this configuration's contents become the active one.
    pub fn step_incremental(&mut self, config_id: &[u8], contents: &[u8]) -> (r: BuildPlan)
        requires
            old(self).wf(),
            old(self).phase is BaseBuilt,
        ensures
            final(self).wf(),
            final(self).phase is BaseBuilt,
            r.parent_branch@ == old(self).base_label.unwrap()@,
            r.new_branch@ == spec_incr_label(old(self).base_label.unwrap()@, config_id@),
            final(self).base_label == old(self).base_label,
            final(self).base_config == old(self).base_config,
            r.save_previous_config,
            final(self).model() == spec_step_incremental(
                old(self).model(),
                old(self).base_label.unwrap()@,
                old(self).base_config.unwrap()@,
                config_id@,
                contents@,
            ),
    {
        proof {
            lemma_base_label_not_default(old(self).base_label.unwrap()@);
        }
        let base = match &self.base_label {
            Some(b) => crate::bytes::to_vec(b.as_slice()),
            None => default_branch(),
        };
        let plan = plan_build_from(base.as_slice(), config_id);
        let base_conf = match &self.base_config {
            Some(c) => crate::bytes::to_vec(c.as_slice()),
            None => Vec::new(),
        };
        if plan.save_previous_config {
            self.wt_prev_config = Some(base_conf);
        }
        self.wt_config = Some(crate::bytes::to_vec(contents));
        let label = crate::bytes::to_vec(plan.new_branch.as_slice());
        proof {
            assert(views_of(self.labels@.push(label)) =~= views_of(self.labels@).push(label@));
        }
        self.labels.push(label);
        plan
    }
}

/// A clean-build label never names the default branch.
proof fn lemma_base_label_not_default(label: Seq<u8>)
    requires
        crate::codec::spec_clean_suffix().is_suffix_of(label),
    ensures
        label != spec_default_branch(),
{
    if label == spec_default_branch() {
        assert(label.subrange(label.len() - 3, label.len() as int)[0] == 116);
        assert(crate::codec::spec_clean_suffix()[0] == 45);
    }
}

/// TWO CONFIGURATIONS PROCESSED IN SEQUENCE NEVER INTERLEAVE WORKING-TREE
/// STATE: after the second configuration's clean-build step, the modeled
/// working tree holds exactly the second configuration's contents — never
/// the first's, whenever the two differ — and the labels the first step
/// created are all still there, in order.
pub proof fn lemma_sequential_isolation(
    m: ModelState,
    id1: Seq<u8>,
    c1: Seq<u8>,
    id2: Seq<u8>,
    c2: Seq<u8>,
)
    ensures
        ({
            let m1 = spec_step_clean(m, id1, c1);
            let m2 = spec_step_clean(m1, id2, c2);
            &&& m2.wt_config == Some(c2)
            &&& (c1 != c2 ==> m2.wt_config != Some(c1))
            &&& m1.labels.is_prefix_of(m2.labels)
        }),
{
    let m1 = spec_step_clean(m, id1, c1);
    let m2 = spec_step_clean(m1, id2, c2);
    assert(m2.labels.subrange(0, m1.labels.len() as int) =~= m1.labels);
}

} // verus!
