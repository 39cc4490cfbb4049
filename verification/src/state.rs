//! Lifecycle state of plan steps.
//!
//! Each plan step carries one lifecycle state, written to and read from a
//! state file as a short label; the error state embeds the failed stage.

use vstd::prelude::*;

use crate::text::all_digits;
use crate::text::dec_str;
use crate::text::dec_val;
use crate::text::parse_u64;
use crate::text::u64_to_string;

verus! {

/// Lifecycle state for a plan step.
#[derive(Clone, Copy, Debug, PartialEq, Eq, Structural)]
pub enum StepState {
    Planned,
    Implemented,
    ImplementedChecked,
    ImplementedTested,
    ImplementedFinalized,
    ImplementedCommitted,
    LifecycleError(u8),
}

/// The label a state is written as.
pub open spec fn label_spec(s: StepState) -> Seq<char> {
    match s {
        StepState::Planned => "planned"@,
        StepState::Implemented => "implemented"@,
        StepState::ImplementedChecked => "implemented-checked"@,
        StepState::ImplementedTested => "implemented-tested"@,
        StepState::ImplementedFinalized => "implemented-finalized"@,
        StepState::ImplementedCommitted => "implemented-committed"@,
        StepState::LifecycleError(stage) => "lifecycle-error-"@ + dec_str(stage as nat),
    }
}

/// The state a label is read back as.
pub open spec fn state_of_label_spec(t: Seq<char>) -> Option<StepState> {
    if t == "planned"@ {
        Option::Some(StepState::Planned)
    } else if t == "implemented"@ {
        Option::Some(StepState::Implemented)
    } else if t == "implemented-checked"@ {
        Option::Some(StepState::ImplementedChecked)
    } else if t == "implemented-tested"@ {
        Option::Some(StepState::ImplementedTested)
    } else if t == "implemented-finalized"@ {
        Option::Some(StepState::ImplementedFinalized)
    } else if t == "implemented-committed"@ {
        Option::Some(StepState::ImplementedCommitted)
    } else if t.len() > "lifecycle-error-"@.len() && t.subrange(0, "lifecycle-error-"@.len() as int)
        == "lifecycle-error-"@ {
        let digits = t.skip("lifecycle-error-"@.len() as int);
        if all_digits(digits) && dec_val(digits) <= 255 {
            Option::Some(StepState::LifecycleError(dec_val(digits) as u8))
        } else {
            Option::None
        }
    } else {
        Option::None
    }
}

impl StepState {
    /// The short label the state is logged and stored as.
    pub fn label(self) -> (r: String)
        ensures
            r@ == label_spec(self),
    {
        match self {
            StepState::Planned => str_to_string("planned"),
            StepState::Implemented => str_to_string("implemented"),
            StepState::ImplementedChecked => str_to_string("implemented-checked"),
            StepState::ImplementedTested => str_to_string("implemented-tested"),
            StepState::ImplementedFinalized => str_to_string("implemented-finalized"),
            StepState::ImplementedCommitted => str_to_string("implemented-committed"),
            StepState::LifecycleError(stage) => {
                let mut s = str_to_string("lifecycle-error-");
                let digits = u64_to_string(stage as u64);
                s.append(digits.as_str());
                s
            },
        }
    }

    /// The error state of a failed stage.
    pub fn lifecycle_error(stage: u8) -> (r: Self)
        ensures
            r == StepState::LifecycleError(stage),
    {
        StepState::LifecycleError(stage)
    }

    /// Reads a label back; `None` on an unknown label or a bad error stage.
    pub fn from_label(t: &str) -> (r: Option<StepState>)
        ensures
            r == state_of_label_spec(t@),
    {
        if crate::agents_md::str_eq(t, "planned") {
            return Some(StepState::Planned);
        }
        if crate::agents_md::str_eq(t, "implemented") {
            return Some(StepState::Implemented);
        }
        if crate::agents_md::str_eq(t, "implemented-checked") {
            return Some(StepState::ImplementedChecked);
        }
        if crate::agents_md::str_eq(t, "implemented-tested") {
            return Some(StepState::ImplementedTested);
        }
        if crate::agents_md::str_eq(t, "implemented-finalized") {
            return Some(StepState::ImplementedFinalized);
        }
        if crate::agents_md::str_eq(t, "implemented-committed") {
            return Some(StepState::ImplementedCommitted);
        }
        let pre = "lifecycle-error-";
        let plen = pre.unicode_len();
        let n = t.unicode_len();
        if n > plen && crate::text::range_matches(t, 0, pre) {
            let digits = t.substring_char(plen, n);
            match parse_u64(digits) {
                Some(v) if v <= 255 => {
                    proof {
                        assert(digits@ =~= t@.skip(plen as int));
                    }
                    Some(StepState::LifecycleError(v as u8))
                },
                _ => {
                    proof {
                        assert(digits@ =~= t@.skip(plen as int));
                    }
                    None
                },
            }
        } else {
            None
        }
    }
}

fn str_to_string(s: &str) -> (r: String)
    ensures
        r@ == s@,
{
    s.to_owned()
}

// ---------------------------------------------------------------------------
// The state file
// ---------------------------------------------------------------------------
/// One step's recorded state.
pub struct StateEntry {
    pub id: String,
    pub state: StepState,
}

/// Index of the first entry for a step, or `-1`.
pub open spec fn state_idx(s: Seq<StateEntry>, id: Seq<char>) -> int
    decreases s.len(),
{
    if s.len() == 0 {
        -1
    } else if s[0].id@ == id {
        0
    } else {
        let r = state_idx(s.drop_first(), id);
        if r < 0 {
            -1
        } else {
            r + 1
        }
    }
}

/// The recorded state of a step, with `Planned` the default.
pub open spec fn state_for_spec(s: Seq<StateEntry>, id: Seq<char>) -> StepState {
    if state_idx(s, id) >= 0 {
        s[state_idx(s, id)].state
    } else {
        StepState::Planned
    }
}

pub proof fn lemma_state_idx(s: Seq<StateEntry>, id: Seq<char>)
    ensures
        -1 <= state_idx(s, id) < s.len(),
        state_idx(s, id) >= 0 ==> s[state_idx(s, id)].id@ == id,
        forall|x: int|
            0 <= x < s.len() && (state_idx(s, id) == -1 || x < state_idx(s, id)) ==> (
            #[trigger] s[x].id@) != id,
    decreases s.len(),
{
    if s.len() > 0 && s[0].id@ != id {
        lemma_state_idx(s.drop_first(), id);
        assert(forall|x: int| 1 <= x < s.len() ==> #[trigger] s[x] == s.drop_first()[x - 1]);
    }
}

pub proof fn lemma_state_idx_is(s: Seq<StateEntry>, id: Seq<char>, k: int)
    requires
        0 <= k < s.len(),
        s[k].id@ == id,
        forall|x: int| 0 <= x < k ==> (#[trigger] s[x].id@) != id,
    ensures
        state_idx(s, id) == k,
    decreases k,
{
    if k > 0 {
        assert(forall|x: int| 1 <= x < s.len() ==> #[trigger] s[x] == s.drop_first()[x - 1]);
        lemma_state_idx_is(s.drop_first(), id, k - 1);
    }
}

pub proof fn lemma_state_idx_none(s: Seq<StateEntry>, id: Seq<char>)
    requires
        forall|x: int| 0 <= x < s.len() ==> (#[trigger] s[x].id@) != id,
    ensures
        state_idx(s, id) == -1,
{
    lemma_state_idx(s, id);
    if state_idx(s, id) >= 0 {
        assert(false);
    }
}

/// Replacing an entry of the same id moves every other step's state nowhere.
proof fn lemma_state_update(s: Seq<StateEntry>, i: int, e: StateEntry, id: Seq<char>)
    requires
        0 <= i < s.len(),
        s[i].id@ == e.id@,
        id != e.id@,
    ensures
        state_for_spec(s.update(i, e), id) == state_for_spec(s, id),
    decreases s.len(),
{
    let s2 = s.update(i, e);
    if i == 0 {
        assert(s2[0] == e);
        assert(s2.drop_first() =~= s.drop_first());
        lemma_state_step(s, id);
        lemma_state_step(s2, id);
    } else {
        assert(s2[0] == s[0]);
        assert(s2.drop_first() =~= s.drop_first().update(i - 1, e));
        if s[0].id@ == id {
        } else {
            lemma_state_update(s.drop_first(), i - 1, e, id);
            lemma_state_step(s, id);
            lemma_state_step(s2, id);
        }
    }
}

/// State lookup steps over a head entry of another id.
proof fn lemma_state_step(s: Seq<StateEntry>, id: Seq<char>)
    requires
        s.len() > 0,
        s[0].id@ != id,
    ensures
        state_for_spec(s, id) == state_for_spec(s.drop_first(), id),
{
    let r = state_idx(s.drop_first(), id);
    if r >= 0 {
        lemma_state_idx(s.drop_first(), id);
        assert(s[r + 1] == s.drop_first()[r]);
    }
}

/// Appending a new entry moves every other step's state nowhere.
proof fn lemma_state_push(s: Seq<StateEntry>, e: StateEntry, id: Seq<char>)
    requires
        id != e.id@,
    ensures
        state_for_spec(s.push(e), id) == state_for_spec(s, id),
    decreases s.len(),
{
    let s2 = s.push(e);
    if s.len() == 0 {
        assert(s2[0] == e);
        assert(s2.drop_first() =~= Seq::<StateEntry>::empty());
        lemma_state_step(s2, id);
    } else {
        assert(s2[0] == s[0]);
        assert(s2.drop_first() =~= s.drop_first().push(e));
        if s[0].id@ == id {
        } else {
            lemma_state_push(s.drop_first(), e, id);
            lemma_state_step(s, id);
            lemma_state_step(s2, id);
        }
    }
}

/// The recorded lifecycle state of every step.
pub struct StateFile {
    pub steps: Vec<StateEntry>,
}

impl View for StateFile {
    type V = Seq<StateEntry>;

    open spec fn view(&self) -> Seq<StateEntry> {
        self.steps@
    }
}

impl StateFile {
    /// A state file with nothing recorded: every step is `Planned`.
    pub fn new() -> (r: StateFile)
        ensures
            r@ =~= Seq::<StateEntry>::empty(),
    {
        StateFile { steps: Vec::new() }
    }

    /// The state recorded for a step, `Planned` when none is.
    pub fn state_for(&self, step_id: &str) -> (r: StepState)
        ensures
            r == state_for_spec(self@, step_id@),
    {
        let mut i: usize = 0;
        while i < self.steps.len()
            invariant
                0 <= i <= self@.len(),
                forall|x: int| 0 <= x < i ==> (#[trigger] self@[x].id@) != step_id@,
            decreases self@.len() - i,
        {
            if crate::agents_md::str_eq(self.steps[i].id.as_str(), step_id) {
                proof {
                    lemma_state_idx_is(self@, step_id@, i as int);
                }
                return self.steps[i].state;
            }
            i = i + 1;
        }
        proof {
            lemma_state_idx_none(self@, step_id@);
        }
        StepState::Planned
    }

    /// Records the state of a step, replacing any earlier record.
    pub fn set_state(&mut self, step_id: &str, state: StepState)
        ensures
            state_for_spec(final(self)@, step_id@) == state,
            forall|n: Seq<char>|
                n != step_id@ ==> state_for_spec(final(self)@, n) == state_for_spec(
                    old(self)@,
                    n,
                ),
    {
        let ghost s0 = self@;
        let mut i: usize = 0;
        while i < self.steps.len()
            invariant
                0 <= i <= self@.len(),
                self@ == s0,
                s0 == old(self)@,
                forall|x: int| 0 <= x < i ==> (#[trigger] self@[x].id@) != step_id@,
            decreases self@.len() - i,
        {
            if crate::agents_md::str_eq(self.steps[i].id.as_str(), step_id) {
                let e = StateEntry { id: step_id.to_owned(), state };
                self.steps.set(i, e);
                proof {
                    assert(self@ =~= s0.update(i as int, e));
                    lemma_state_idx_is(self@, step_id@, i as int);
                    assert forall|n: Seq<char>| n != step_id@ implies state_for_spec(self@, n)
                        == state_for_spec(s0, n) by {
                        lemma_state_update(s0, i as int, e, n);
                    }
                }
                return ;
            }
            i = i + 1;
        }
        let e = StateEntry { id: step_id.to_owned(), state };
        self.steps.push(e);
        proof {
            assert(self@ =~= s0.push(e));
            lemma_state_idx_is(self@, step_id@, s0.len() as int);
            assert forall|n: Seq<char>| n != step_id@ implies state_for_spec(self@, n)
                == state_for_spec(s0, n) by {
                lemma_state_push(s0, e, n);
            }
        }
    }
}

} // verus!
