//! The state of one incremental merge.
use vstd::prelude::*;

use crate::text::{copied_option, same};

verus! {

/// The version of the format in which the state is stored.
pub const STATE_VERSION: (u32, u32, u32) = (1, 3, 0);

/// What an incremental merge can be simplified to.
pub const ALLOWED_GOALS: [&'static str; 9] = [
    "full",
    "rebase",
    "rebase-with-history",
    "border",
    "border-with-history",
    "border-with-history2",
    "merge",
    "drop",
    "revert",
];

/// The goal of an incremental merge if none is given.
pub const DEFAULT_GOAL: &'static str = "merge";

/// Whether `goal` is one of the allowed goals.
pub open spec fn is_goal(goal: Seq<char>) -> bool {
    exists|k: int| 0 <= k < 9 && #[trigger] ALLOWED_GOALS@[k]@ == goal
}

/// Whether `goal` is one of the allowed goals.
pub fn is_allowed_goal(goal: &str) -> (r: bool)
    ensures
        r == is_goal(goal@),
{
    let goals = ALLOWED_GOALS;
    let mut k: usize = 0;
    while k < 9
        invariant
            k <= 9,
            goals == ALLOWED_GOALS,
            forall|m: int| 0 <= m < k ==> #[trigger] ALLOWED_GOALS@[m]@ != goal@,
        decreases 9 - k,
    {
        assert(goals@[k as int]@ == ALLOWED_GOALS@[k as int]@);
        if same(goals[k], goal) {
            return true;
        }
        k += 1;
    }
    false
}

/// Options that belong to the goal of an incremental merge.
#[derive(Clone, Debug, PartialEq, Eq)]
pub struct GoalOpts {
    /// The commit on which the result is based.
    pub base: Option<String>,
}

/// The content of [`GoalOpts`].
pub struct GoalOptsView {
    pub base: Option<Seq<char>>,
}

impl DeepView for GoalOpts {
    type V = GoalOptsView;

    open spec fn deep_view(&self) -> GoalOptsView {
        GoalOptsView { base: self.base.deep_view() }
    }
}

impl Default for GoalOpts {
    fn default() -> (r: Self)
        ensures
            r.deep_view() == (GoalOptsView { base: None }),
    {
        GoalOpts { base: None }
    }
}

/// A copy of optional goal options.
pub fn copied_goalopts(o: &Option<GoalOpts>) -> (r: Option<GoalOpts>)
    ensures
        r.deep_view() == o.deep_view(),
{
    match o {
        Some(g) => Some(GoalOpts { base: copied_option(&g.base) }),
        None => None,
    }
}

/// What is stored of an incremental merge besides its commits.
#[derive(Clone, Debug)]
pub struct StateDict {
    pub version: String,
    pub blockers: Vec<(usize, usize)>,
    pub tip1: Option<String>,
    pub tip2: Option<String>,
    pub goal: String,
    pub goalopts: Option<GoalOpts>,
    pub manual: bool,
    pub dedupe_patches: bool,
    pub branch: Option<String>,
}

/// The content of a [`StateDict`].
#[verifier::ext_equal]
pub struct StateDictView {
    pub version: Seq<char>,
    pub blockers: Seq<(usize, usize)>,
    pub tip1: Option<Seq<char>>,
    pub tip2: Option<Seq<char>>,
    pub goal: Seq<char>,
    pub goalopts: Option<GoalOptsView>,
    pub manual: bool,
    pub dedupe_patches: bool,
    pub branch: Option<Seq<char>>,
}

impl DeepView for StateDict {
    type V = StateDictView;

    open spec fn deep_view(&self) -> StateDictView {
        StateDictView {
            version: self.version@,
            blockers: self.blockers.deep_view(),
            tip1: self.tip1.deep_view(),
            tip2: self.tip2.deep_view(),
            goal: self.goal@,
            goalopts: self.goalopts.deep_view(),
            manual: self.manual,
            dedupe_patches: self.dedupe_patches,
            branch: self.branch.deep_view(),
        }
    }
}

impl StateDict {
    /// A copy of the stored state.
    pub fn copy(&self) -> (r: StateDict)
        ensures
            r.deep_view() == self.deep_view(),
    {
        let mut blockers: Vec<(usize, usize)> = Vec::new();
        let mut i: usize = 0;
        while i < self.blockers.len()
            invariant
                i <= self.blockers.len(),
                blockers@ == self.blockers@.take(i as int),
            decreases self.blockers.len() - i,
        {
            blockers.push(self.blockers[i]);
            i += 1;
            assert(blockers@ =~= self.blockers@.take(i as int));
        }
        assert(blockers.deep_view() =~= self.blockers.deep_view());
        StateDict {
            version: self.version.clone(),
            blockers,
            tip1: copied_option(&self.tip1),
            tip2: copied_option(&self.tip2),
            goal: self.goal.clone(),
            goalopts: copied_goalopts(&self.goalopts),
            manual: self.manual,
            dedupe_patches: self.dedupe_patches,
            branch: copied_option(&self.branch),
        }
    }
}

} // verus!
