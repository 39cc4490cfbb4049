//! The steps file: the plan's steps frozen beside the plan.

use vstd::prelude::*;

use crate::plan::PlanStep;

verus! {

/// The frozen steps of a plan.
#[derive(Debug)]
pub struct StepsFile {
    pub steps: Vec<PlanStep>,
}

/// Index of the last slash of a path, or `-1`.
pub open spec fn last_slash(t: Seq<char>) -> int
    decreases t.len(),
{
    if t.len() == 0 {
        -1
    } else if t.last() == '/' {
        t.len() - 1
    } else {
        last_slash(t.drop_last())
    }
}

/// The steps file path beside a plan: the plan's directory, then
/// `steps.json`.
pub open spec fn steps_path_spec(t: Seq<char>) -> Seq<char> {
    if last_slash(t) < 0 {
        "steps.json"@
    } else {
        t.subrange(0, last_slash(t)) + "/steps.json"@
    }
}

proof fn lemma_last_slash_is(t: Seq<char>, k: int)
    requires
        -1 <= k < t.len(),
        k >= 0 ==> t[k] == '/',
        forall|j: int| k < j < t.len() ==> (#[trigger] t[j]) != '/',
    ensures
        last_slash(t) == k,
    decreases t.len(),
{
    if t.len() > 0 && t.last() != '/' {
        assert(forall|j: int| 0 <= j < t.len() - 1 ==> t.drop_last()[j] == t[j]);
        lemma_last_slash_is(t.drop_last(), k);
    }
}

impl StepsFile {
    /// Wraps the plan's steps.
    pub fn from_steps(steps: Vec<PlanStep>) -> (r: StepsFile)
        ensures
            r.steps@ == steps@,
    {
        StepsFile { steps }
    }

    /// The path of the steps file kept beside the plan file.
    pub fn path_for(plan_path: &str) -> (r: String)
        ensures
            r@ == steps_path_spec(plan_path@),
    {
        let n = plan_path.unicode_len();
        let mut k = n;
        while k > 0 && plan_path.get_char(k - 1) != '/'
            invariant
                0 <= k <= n,
                n == plan_path@.len(),
                forall|j: int| k <= j < n ==> (#[trigger] plan_path@[j]) != '/',
            decreases k,
        {
            k = k - 1;
        }
        if k == 0 {
            proof {
                lemma_last_slash_is(plan_path@, -1);
            }
            let r = str_owned("steps.json");
            r
        } else {
            proof {
                lemma_last_slash_is(plan_path@, k - 1);
            }
            let mut r = plan_path.substring_char(0, k - 1).to_owned();
            r.append("/steps.json");
            r
        }
    }
}

fn str_owned(s: &str) -> (r: String)
    ensures
        r@ == s@,
{
    s.to_owned()
}

} // verus!
