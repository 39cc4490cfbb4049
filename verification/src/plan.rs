//! Markdown plans.
//!
//! A plan is a markdown text whose numbered lines — optional indent, a
//! decimal number, a dot, whitespace, then the step text — become ordered
//! steps.  Step numbers must be unique; a plan without steps is refused.

use vstd::prelude::*;

use crate::agents_md::line_sans_nl;
use crate::error::AgentError;
use crate::state::state_for_spec;
use crate::state::StateFile;
use crate::state::StepState;
use crate::text::all_digits;
use crate::text::dec_str;
use crate::text::dec_val;
use crate::text::is_digit;
use crate::text::is_ws;
use crate::text::lines_of;
use crate::text::split_lines;
use crate::text::trim_spec;
use crate::text::trim_str;
use crate::text::u64_to_string;
use crate::text::views_of;

verus! {

/// A single plan step.
#[derive(Debug)]
pub struct PlanStep {
    pub id: String,
    pub number: usize,
    pub text: String,
}

impl Clone for PlanStep {
    /// An equal copy of the step.
    fn clone(&self) -> (r: Self)
        ensures
            r == *self,
    {
        PlanStep { id: self.id.clone(), number: self.number, text: self.text.clone() }
    }
}

/// Parsed plan with ordered steps.
#[derive(Debug)]
pub struct Plan {
    pub steps: Vec<PlanStep>,
}

// ---------------------------------------------------------------------------
// The step-line grammar
// ---------------------------------------------------------------------------
/// A line body without a trailing carriage return.
pub open spec fn line_body(l: Seq<char>) -> Seq<char> {
    let b = line_sans_nl(l);
    if b.len() > 0 && b.last() == '\r' {
        b.drop_last()
    } else {
        b
    }
}

/// First non-whitespace position at or after `from`.
pub open spec fn scan_ws(t: Seq<char>, from: int) -> int
    decreases t.len() - from when 0 <= from <= t.len()
{
    if from >= t.len() {
        t.len() as int
    } else if is_ws(t[from]) {
        scan_ws(t, from + 1)
    } else {
        from
    }
}

/// First non-digit position at or after `from`.
pub open spec fn scan_digits(t: Seq<char>, from: int) -> int
    decreases t.len() - from when 0 <= from <= t.len()
{
    if from >= t.len() {
        t.len() as int
    } else if is_digit(t[from]) {
        scan_digits(t, from + 1)
    } else {
        from
    }
}

/// The digits and trimmed text of a step line: optional indent, a number,
/// a dot, at least one blank, then the step text.
pub open spec fn step_of_line(l: Seq<char>) -> Option<(Seq<char>, Seq<char>)> {
    let b = line_body(l);
    let a = scan_ws(b, 0);
    let d = scan_digits(b, a);
    if d > a && d < b.len() && b[d] == '.' && d + 2 < b.len() && is_ws(b[d + 1]) {
        Option::Some((b.subrange(a, d), trim_spec(b.subrange(d + 1, b.len() as int))))
    } else {
        Option::None
    }
}

/// Parses `ls[i..]` with the step numbers of `nums` already taken; `None`
/// on a number beyond `usize` or a duplicate.
pub open spec fn plan_from(ls: Seq<Seq<char>>, i: int, nums: Seq<int>) -> Option<
    Seq<(int, Seq<char>)>,
>
    decreases ls.len() - i when 0 <= i <= ls.len()
{
    if i >= ls.len() {
        Option::Some(Seq::empty())
    } else {
        match step_of_line(ls[i]) {
            Option::None => plan_from(ls, i + 1, nums),
            Option::Some((digits, text)) => {
                let v = dec_val(digits);
                if v > usize::MAX {
                    Option::None
                } else if nums.contains(v) {
                    Option::None
                } else {
                    match plan_from(ls, i + 1, nums.push(v)) {
                        Option::None => Option::None,
                        Option::Some(rest) => Option::Some(seq![(v, text)] + rest),
                    }
                }
            },
        }
    }
}

/// The steps of a plan text.
pub open spec fn plan_of_text(t: Seq<char>) -> Option<Seq<(int, Seq<char>)>> {
    plan_from(lines_of(t), 0, Seq::empty())
}

/// Reads a line's step, if the line carries one.
fn step_of_line_exec(l: &str) -> (r: Option<(String, String)>)
    ensures
        r is Some ==> step_of_line(l@) == Option::Some(
            ((r->Some_0).0@, (r->Some_0).1@),
        ),
        r is None ==> step_of_line(l@) is None,
{
    let n = l.unicode_len();
    let bn: usize = if n > 0 && l.get_char(n - 1) == '\n' {
        n - 1
    } else {
        n
    };
    let bn2: usize = if bn > 0 && l.get_char(bn - 1) == '\r' {
        bn - 1
    } else {
        bn
    };
    let ghost b = line_body(l@);
    proof {
        assert(b =~= l@.subrange(0, bn2 as int));
    }
    let mut a: usize = 0;
    while a < bn2 && is_ws_exec(l.get_char(a))
        invariant
            0 <= a <= bn2,
            bn2 <= l@.len(),
            b == line_body(l@),
            b =~= l@.subrange(0, bn2 as int),
            forall|j: int| 0 <= j < a ==> is_ws(#[trigger] b[j]),
        decreases bn2 - a,
    {
        a = a + 1;
    }
    proof {
        lemma_scan_ws_is(b, 0, a as int);
    }
    let mut d: usize = a;
    while d < bn2 && is_digit_exec(l.get_char(d))
        invariant
            a <= d <= bn2,
            bn2 <= l@.len(),
            b == line_body(l@),
            b =~= l@.subrange(0, bn2 as int),
            forall|j: int| a <= j < d ==> is_digit(#[trigger] b[j]),
        decreases bn2 - d,
    {
        d = d + 1;
    }
    proof {
        lemma_scan_digits_is(b, a as int, d as int);
    }
    if d > a && d < bn2 && l.get_char(d) == '.' && bn2 - d > 2 && is_ws_exec(l.get_char(d + 1)) {
        let digits = l.substring_char(a, d).to_owned();
        let text = trim_str(l.substring_char(d + 1, bn2));
        proof {
            assert(digits@ =~= b.subrange(a as int, d as int));
            assert(l@.subrange(d + 1, bn2 as int) =~= b.subrange(d + 1, b.len() as int));
        }
        Some((digits, text))
    } else {
        None
    }
}

fn is_ws_exec(c: char) -> (r: bool)
    ensures
        r == is_ws(c),
{
    c == ' ' || c == '\t' || c == '\n' || c == '\r'
}

fn is_digit_exec(c: char) -> (r: bool)
    ensures
        r == is_digit(c),
{
    let u = c as u32;
    proof {
        assert(('0' as u32) == 48 && ('9' as u32) == 57);
    }
    48 <= u && u <= 57
}

proof fn lemma_scan_ws_is(t: Seq<char>, from: int, k: int)
    requires
        0 <= from <= k <= t.len(),
        forall|j: int| from <= j < k ==> is_ws(#[trigger] t[j]),
        k < t.len() ==> !is_ws(t[k]),
    ensures
        scan_ws(t, from) == k,
    decreases k - from,
{
    if from < k {
        lemma_scan_ws_is(t, from + 1, k);
    }
}

proof fn lemma_scan_ws_range(t: Seq<char>, from: int)
    requires
        0 <= from <= t.len(),
    ensures
        from <= scan_ws(t, from) <= t.len(),
    decreases t.len() - from,
{
    if from < t.len() && is_ws(t[from]) {
        lemma_scan_ws_range(t, from + 1);
    }
}

/// The digit run of a step line is nonempty and all digits.
proof fn lemma_step_digits(l: Seq<char>)
    requires
        step_of_line(l) is Some,
    ensures
        all_digits((step_of_line(l)->Some_0).0),
        (step_of_line(l)->Some_0).0.len() > 0,
{
    let b = line_body(l);
    lemma_scan_ws_range(b, 0);
    let a = scan_ws(b, 0);
    lemma_scan_digits_range(b, a);
    let d = scan_digits(b, a);
    let dg = b.subrange(a, d);
    assert(forall|j: int| 0 <= j < dg.len() ==> #[trigger] dg[j] == b[a + j]);
}

proof fn lemma_scan_digits_is(t: Seq<char>, from: int, k: int)
    requires
        0 <= from <= k <= t.len(),
        forall|j: int| from <= j < k ==> is_digit(#[trigger] t[j]),
        k < t.len() ==> !is_digit(t[k]),
    ensures
        scan_digits(t, from) == k,
    decreases k - from,
{
    if from < k {
        lemma_scan_digits_is(t, from + 1, k);
    }
}

// ---------------------------------------------------------------------------
// Parsing a plan text
// ---------------------------------------------------------------------------
/// The step numbers of a step list.
pub open spec fn step_nums(steps: Seq<PlanStep>) -> Seq<int> {
    steps.map_values(|s: PlanStep| s.number as int)
}

/// Parses a markdown plan text into its numbered steps.
///
/// Fails when a step number is beyond `usize` or repeated, and when the
/// text holds no step at all; a step's id is its number written in decimal.
pub fn parse_plan(contents: &str) -> (r: Result<Plan, AgentError>)
    ensures
        r is Ok <==> plan_of_text(contents@) is Some && plan_of_text(contents@)->Some_0.len()
            > 0,
        r is Ok ==> {
            let steps = r->Ok_0.steps;
            let model = plan_of_text(contents@)->Some_0;
            &&& steps@.len() == model.len()
            &&& forall|x: int|
                0 <= x < steps@.len() ==> (#[trigger] steps@[x]).number as int == model[x].0
                    && steps@[x].text@ == model[x].1 && steps@[x].id@ == dec_str(
                    model[x].0 as nat,
                )
        },
        r is Err ==> r->Err_0 == AgentError::MalformedDocument,
{
    let lines = split_lines(contents);
    let ghost ll = views_of(lines@);
    let n = lines.len();
    let mut steps: Vec<PlanStep> = Vec::new();
    let mut i: usize = 0;
    proof {
        assert(step_nums(steps@) =~= Seq::<int>::empty());
        match plan_from(ll, 0, Seq::<int>::empty()) {
            Option::None => {
            },
            Option::Some(rest) => {
                assert(steps@.map_values(|s: PlanStep| (s.number as int, s.text@)) + rest
                    =~= rest);
            },
        }
    }
    while i < n
        invariant
            0 <= i <= n,
            n == lines@.len(),
            ll == views_of(lines@),
            ll == lines_of(contents@),
            forall|x: int|
                0 <= x < steps@.len() ==> (#[trigger] steps@[x]).id@ == dec_str(
                    steps@[x].number as nat,
                ),
            plan_of_text(contents@) == (match plan_from(ll, i as int, step_nums(steps@)) {
                Option::None => Option::None::<Seq<(int, Seq<char>)>>,
                Option::Some(rest) => Option::Some(
                    steps@.map_values(|s: PlanStep| (s.number as int, s.text@)) + rest,
                ),
            }),
        decreases n - i,
    {
        let ghost steps0 = steps@;
        match step_of_line_exec(lines[i].as_str()) {
            None => {
            },
            Some((digits, text)) => {
                let num64 = match crate::text::parse_u64(digits.as_str()) {
                    Some(v) => v,
                    None => {
                        proof {
                            lemma_step_digits(ll[i as int]);
                            let dg = (step_of_line(ll[i as int])->Some_0).0;
                            assert(dec_val(dg) > u64::MAX || dg.len() == 0);
                            assert(usize::MAX as int <= u64::MAX as int);
                            assert(dec_val(dg) > usize::MAX);
                        }
                        return Err(AgentError::MalformedDocument);
                    },
                };
                if num64 > (usize::MAX as u64) {
                    proof {
                        let dg = (step_of_line(ll[i as int])->Some_0).0;
                        assert(dec_val(dg) == num64 as int);
                        assert(dec_val(dg) > usize::MAX);
                    }
                    return Err(AgentError::MalformedDocument);
                }
                let num: usize = num64 as usize;
                // a duplicate step number is refused
                let mut x: usize = 0;
                let mut dup = false;
                while x < steps.len()
                    invariant
                        0 <= x <= steps@.len(),
                        dup ==> exists|y: int|
                            0 <= y < steps@.len() && (#[trigger] steps@[y]).number == num,
                        !dup ==> forall|y: int|
                            0 <= y < x ==> (#[trigger] steps@[y]).number != num,
                    decreases steps@.len() - x,
                {
                    if steps[x].number == num {
                        proof {
                            assert(0 <= x < steps@.len() && steps@[x as int].number == num);
                        }
                        dup = true;
                    }
                    x = x + 1;
                }
                if dup {
                    proof {
                        let y = choose|y: int|
                            0 <= y < steps@.len() && (#[trigger] steps@[y]).number == num;
                        assert(step_nums(steps@)[y] == num as int);
                        assert(step_nums(steps@).contains(num as int));
                    }
                    return Err(AgentError::MalformedDocument);
                }
                proof {
                    if step_nums(steps@).contains(num as int) {
                        let y = choose|y: int|
                            0 <= y < step_nums(steps@).len() && step_nums(steps@)[y] == num as int;
                        assert(steps@[y].number == num);
                        assert(false);
                    }
                }
                let id = u64_to_string(num64);
                let step = PlanStep { id, number: num, text };
                steps.push(step);
                proof {
                    assert(step_nums(steps@) =~= step_nums(steps0).push(num as int));
                    assert(steps@.map_values(|s: PlanStep| (s.number as int, s.text@)) =~=
                        steps0.map_values(|s: PlanStep| (s.number as int, s.text@)).push(
                        (num as int, text@),
                    ));
                    let m0 = steps0.map_values(|s: PlanStep| (s.number as int, s.text@));
                    match plan_from(ll, i + 1, step_nums(steps@)) {
                        Option::None => {
                        },
                        Option::Some(rest) => {
                            assert(m0 + (seq![(num as int, text@)] + rest) =~= (m0 + seq![
                                (num as int, text@),
                            ]) + rest);
                        },
                    }
                }
            },
        }
        i = i + 1;
    }
    if steps.len() == 0 {
        proof {
            assert(plan_from(ll, n as int, step_nums(steps@)) == Option::Some(Seq::<(
                int,
                Seq<char>,
            )>::empty()));
            match plan_of_text(contents@) {
                Option::None => {
                },
                Option::Some(model) => {
                    assert(model =~= steps@.map_values(
                        |s: PlanStep| (s.number as int, s.text@),
                    ) + Seq::<(int, Seq<char>)>::empty());
                    assert(model.len() == 0);
                },
            }
        }
        return Err(AgentError::MalformedDocument);
    }
    proof {
        assert(plan_from(ll, n as int, step_nums(steps@)) == Option::Some(Seq::<(
            int,
            Seq<char>,
        )>::empty()));
        let m = steps@.map_values(|s: PlanStep| (s.number as int, s.text@));
        assert(m + Seq::<(int, Seq<char>)>::empty() =~= m);
    }
    Ok(Plan { steps })
}

/// Every scanned digit run is digits.
proof fn lemma_scan_digits_range(t: Seq<char>, from: int)
    requires
        0 <= from <= t.len(),
    ensures
        from <= scan_digits(t, from) <= t.len(),
        forall|j: int| from <= j < scan_digits(t, from) ==> is_digit(#[trigger] t[j]),
    decreases t.len() - from,
{
    if from < t.len() && is_digit(t[from]) {
        lemma_scan_digits_range(t, from + 1);
    }
}

impl Plan {
    /// The first step standing in the desired state.
    pub fn next_step_with_state(&self, state: &StateFile, desired: StepState) -> (r: Option<
        &PlanStep,
    >)
        ensures
            match r {
                Option::Some(step) => exists|x: int|
                    0 <= x < self.steps@.len() && #[trigger] self.steps@[x] == *step
                        && state_for_spec(state@, step.id@) == desired && forall|y: int|
                        0 <= y < x ==> state_for_spec(
                            state@,
                            (#[trigger] self.steps@[y]).id@,
                        ) != desired,
                Option::None => forall|x: int|
                    0 <= x < self.steps@.len() ==> state_for_spec(
                        state@,
                        (#[trigger] self.steps@[x]).id@,
                    ) != desired,
            },
    {
        let mut x: usize = 0;
        while x < self.steps.len()
            invariant
                0 <= x <= self.steps@.len(),
                forall|y: int|
                    0 <= y < x ==> state_for_spec(
                        state@,
                        (#[trigger] self.steps@[y]).id@,
                    ) != desired,
            decreases self.steps@.len() - x,
        {
            let st = state.state_for(self.steps[x].id.as_str());
            if st == desired {
                return Some(&self.steps[x]);
            }
            x = x + 1;
        }
        None
    }
}

} // verus!
