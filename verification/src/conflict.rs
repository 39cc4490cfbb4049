//! Hunk-level conflict resolution.
//!
//! Two texts are compared line by line; the differing runs, together with up
//! to three lines of context on each side, form hunks.  A caller supplies
//! one binary choice per hunk — keep the store ("skill") side or the
//! document ("agents") side — and resolution concatenates the kept lines in
//! their original order.  Choosing one side for every hunk reproduces that
//! side's text exactly.

use vstd::prelude::*;

use crate::text::concat_strings;
use crate::text::concat_texts;
use crate::text::lines_of;
use crate::text::split_lines;
use crate::text::views_of;

verus! {

/// How one line of the diff relates the two sides.
#[derive(Clone, Copy, Debug, PartialEq, Eq, Structural)]
pub enum ChangeKind {
    /// The line stands on both sides.
    Equal,
    /// The line stands only on the store side.
    Delete,
    /// The line stands only on the document side.
    Insert,
}

/// One line of the diff.
pub struct DiffChange {
    pub kind: ChangeKind,
    pub line: String,
}

/// Which side of a hunk to keep.
#[derive(Clone, Copy, Debug, PartialEq, Eq, Structural)]
pub enum Choice {
    /// Keep the store's lines.
    Skill,
    /// Keep the document's lines.
    Agents,
}

// ---------------------------------------------------------------------------
// The two sides of a diff
// ---------------------------------------------------------------------------
/// The store-side lines of the diff, from `i` on: every Equal and Delete line.
pub open spec fn local_lines_from(cs: Seq<DiffChange>, i: int) -> Seq<Seq<char>>
    decreases cs.len() - i when 0 <= i <= cs.len()
{
    if i >= cs.len() {
        Seq::empty()
    } else {
        (if cs[i].kind is Insert {
            Seq::empty()
        } else {
            seq![cs[i].line@]
        }) + local_lines_from(cs, i + 1)
    }
}

/// The document-side lines of the diff, from `i` on: every Equal and Insert
/// line.
pub open spec fn remote_lines_from(cs: Seq<DiffChange>, i: int) -> Seq<Seq<char>>
    decreases cs.len() - i when 0 <= i <= cs.len()
{
    if i >= cs.len() {
        Seq::empty()
    } else {
        (if cs[i].kind is Delete {
            Seq::empty()
        } else {
            seq![cs[i].line@]
        }) + remote_lines_from(cs, i + 1)
    }
}

pub open spec fn local_lines(cs: Seq<DiffChange>) -> Seq<Seq<char>> {
    local_lines_from(cs, 0)
}

pub open spec fn remote_lines(cs: Seq<DiffChange>) -> Seq<Seq<char>> {
    remote_lines_from(cs, 0)
}

// ---------------------------------------------------------------------------
// The trusted diff
// ---------------------------------------------------------------------------
/// Relies on similar's `TextDiff::from_slices` and `iter_all_changes`: the
/// flattened changes visit the old lines in order exactly once through Equal
/// and Delete changes, and the new lines in order exactly once through Equal
/// and Insert changes.
#[verifier::external_body]
fn diff_lines(local: &Vec<String>, remote: &Vec<String>) -> (r: Vec<DiffChange>)
    ensures
        local_lines(r@) == views_of(local@),
        remote_lines(r@) == views_of(remote@),
{
    let old_refs: Vec<&str> = local.iter().map(|s| s.as_str()).collect();
    let new_refs: Vec<&str> = remote.iter().map(|s| s.as_str()).collect();
    let diff = similar::TextDiff::from_slices(&old_refs, &new_refs);
    let mut out = Vec::new();
    for ch in diff.iter_all_changes() {
        let kind = match ch.tag() {
            similar::ChangeTag::Equal => ChangeKind::Equal,
            similar::ChangeTag::Delete => ChangeKind::Delete,
            similar::ChangeTag::Insert => ChangeKind::Insert,
        };
        out.push(DiffChange { kind, line: ch.value().to_string() });
    }
    out
}

/// Computes the line diff of the store text against the document text.
pub fn diff_conflict(skill_content: &str, agents_content: &str) -> (r: Vec<DiffChange>)
    ensures
        local_lines(r@) == lines_of(skill_content@),
        remote_lines(r@) == lines_of(agents_content@),
{
    let a = split_lines(skill_content);
    let b = split_lines(agents_content);
    diff_lines(&a, &b)
}

// ---------------------------------------------------------------------------
// Hunks
// ---------------------------------------------------------------------------
/// A position belongs to a hunk when a changed line stands within three
/// lines of it; two changed runs closer than that share one hunk.
pub open spec fn covered(cs: Seq<DiffChange>, i: int) -> bool {
    exists|j: int|
        0 <= j < cs.len() && !((#[trigger] cs[j].kind) is Equal) && i - 3 <= j <= i + 3
}

/// The first position of a hunk.
pub open spec fn hunk_start(cs: Seq<DiffChange>, i: int) -> bool {
    covered(cs, i) && (i == 0 || !covered(cs, i - 1))
}

/// How many hunks start before position `n`.
pub open spec fn hunk_count_upto(cs: Seq<DiffChange>, n: int) -> int
    decreases n when n >= 0
{
    if n <= 0 {
        0
    } else {
        hunk_count_upto(cs, n - 1) + if hunk_start(cs, n - 1) {
            1int
        } else {
            0int
        }
    }
}

/// How many hunks the diff has.
pub open spec fn hunk_count(cs: Seq<DiffChange>) -> int {
    hunk_count_upto(cs, cs.len() as int)
}

/// The hunk a covered position belongs to.
pub open spec fn hunk_index(cs: Seq<DiffChange>, i: int) -> int {
    hunk_count_upto(cs, i + 1) - 1
}

pub proof fn lemma_upto_monotone(cs: Seq<DiffChange>, a: int, b: int)
    requires
        0 <= a <= b,
    ensures
        hunk_count_upto(cs, a) <= hunk_count_upto(cs, b),
    decreases b - a,
{
    if a < b {
        lemma_upto_monotone(cs, a, b - 1);
    }
}

pub proof fn lemma_upto_le(cs: Seq<DiffChange>, n: int)
    requires
        n >= 0,
    ensures
        0 <= hunk_count_upto(cs, n) <= n,
    decreases n,
{
    if n > 0 {
        lemma_upto_le(cs, n - 1);
    }
}

/// A covered position sits inside some hunk that already started.
pub proof fn lemma_covered_in_hunk(cs: Seq<DiffChange>, i: int)
    requires
        0 <= i,
        covered(cs, i),
    ensures
        hunk_count_upto(cs, i + 1) >= 1,
    decreases i,
{
    if i == 0 {
        assert(hunk_start(cs, 0));
        assert(hunk_count_upto(cs, 1) == hunk_count_upto(cs, 0) + 1);
    } else if covered(cs, i - 1) {
        lemma_covered_in_hunk(cs, i - 1);
        lemma_upto_monotone(cs, i, i + 1);
    } else {
        assert(hunk_start(cs, i));
        assert(hunk_count_upto(cs, i + 1) == hunk_count_upto(cs, i) + 1);
        lemma_upto_le(cs, i);
    }
}

/// A changed line is always covered, by itself.
pub proof fn lemma_change_covered(cs: Seq<DiffChange>, i: int)
    requires
        0 <= i < cs.len(),
        !(cs[i].kind is Equal),
    ensures
        covered(cs, i),
{
    assert(0 <= i < cs.len() && !(cs[i].kind is Equal) && i - 3 <= i <= i + 3);
}

// ---------------------------------------------------------------------------
// Resolution
// ---------------------------------------------------------------------------
/// The lines one change contributes under a choice.
pub open spec fn keep_change(c: DiffChange, choice: Choice) -> Seq<Seq<char>> {
    match c.kind {
        ChangeKind::Equal => seq![c.line@],
        ChangeKind::Delete => if choice is Skill {
            seq![c.line@]
        } else {
            Seq::empty()
        },
        ChangeKind::Insert => if choice is Agents {
            seq![c.line@]
        } else {
            Seq::empty()
        },
    }
}

/// The kept lines from position `i` on: equal lines always, changed lines by
/// their hunk's choice.
pub open spec fn resolved_from(cs: Seq<DiffChange>, choices: Seq<Choice>, i: int) -> Seq<
    Seq<char>,
>
    decreases cs.len() - i when 0 <= i <= cs.len()
{
    if i >= cs.len() {
        Seq::empty()
    } else {
        (if cs[i].kind is Equal {
            seq![cs[i].line@]
        } else {
            let h = hunk_index(cs, i);
            if 0 <= h < choices.len() {
                keep_change(cs[i], choices[h])
            } else {
                Seq::empty()
            }
        }) + resolved_from(cs, choices, i + 1)
    }
}

/// The kept lines of the whole diff.
pub open spec fn resolved_lines(cs: Seq<DiffChange>, choices: Seq<Choice>) -> Seq<Seq<char>> {
    resolved_from(cs, choices, 0)
}

/// Whether a changed line is kept under its hunk's choice.
fn keeps(kind: &ChangeKind, choice: &Choice) -> (r: bool)
    ensures
        r == (match *kind {
            ChangeKind::Equal => true,
            ChangeKind::Delete => *choice is Skill,
            ChangeKind::Insert => *choice is Agents,
        }),
{
    match kind {
        ChangeKind::Equal => true,
        ChangeKind::Delete => matches!(choice, Choice::Skill),
        ChangeKind::Insert => matches!(choice, Choice::Agents),
    }
}

/// Whether a changed line stands within three lines of position `i`.
fn is_covered(changes: &Vec<DiffChange>, i: usize) -> (r: bool)
    requires
        i < changes@.len(),
    ensures
        r == covered(changes@, i as int),
{
    let lo: usize = if i >= 3 {
        i - 3
    } else {
        0
    };
    let hi: usize = if changes.len() - i > 3 {
        i + 3
    } else {
        changes.len() - 1
    };
    let mut j = lo;
    while j <= hi
        invariant
            lo <= j <= hi + 1,
            hi < changes@.len(),
            changes@.len() <= usize::MAX,
            lo == if i >= 3 { i - 3 } else { 0 },
            hi == if changes@.len() - i > 3 { i + 3 } else { changes@.len() - 1 },
            i < changes@.len(),
            forall|x: int| lo <= x < j ==> (#[trigger] changes@[x].kind) is Equal,
        decreases hi + 1 - j,
    {
        if !matches!(changes[j].kind, ChangeKind::Equal) {
            proof {
                assert(0 <= j < changes@.len() && !(changes@[j as int].kind is Equal) && i - 3
                    <= j <= i + 3);
            }
            return true;
        }
        j = j + 1;
    }
    proof {
        if covered(changes@, i as int) {
            let w = choose|w: int|
                0 <= w < changes@.len() && !((#[trigger] changes@[w].kind) is Equal) && i - 3
                    <= w <= i + 3;
            assert(lo <= w <= hi);
            assert(false);
        }
    }
    false
}

/// How many hunks the diff presents; one choice is owed per hunk.
pub fn count_hunks(changes: &Vec<DiffChange>) -> (r: usize)
    ensures
        r == hunk_count(changes@),
{
    let n = changes.len();
    let mut hc: usize = 0;
    let mut i: usize = 0;
    let mut prev_covered = false;
    while i < n
        invariant
            0 <= i <= n,
            n == changes@.len(),
            hc == hunk_count_upto(changes@, i as int),
            prev_covered == (i > 0 && covered(changes@, i - 1)),
        decreases n - i,
    {
        let cov = is_covered(changes, i);
        if cov && !prev_covered {
            proof {
                lemma_upto_le(changes@, i as int);
            }
            hc = hc + 1;
        }
        prev_covered = cov;
        i = i + 1;
    }
    hc
}

/// Applies one choice per hunk: equal lines are kept always, store-side
/// lines where the choice is `Skill`, document-side lines where it is
/// `Agents`; the kept lines are joined in their original order.
pub fn resolve_with_choices(changes: &Vec<DiffChange>, choices: &Vec<Choice>) -> (r: String)
    requires
        choices@.len() == hunk_count(changes@),
    ensures
        r@ == concat_texts(resolved_lines(changes@, choices@)),
{
    let n = changes.len();
    let mut out: Vec<String> = Vec::new();
    let mut hc: usize = 0;
    let mut i: usize = 0;
    let mut prev_covered = false;
    while i < n
        invariant
            0 <= i <= n,
            n == changes@.len(),
            choices@.len() == hunk_count(changes@),
            hc == hunk_count_upto(changes@, i as int),
            prev_covered == (i > 0 && covered(changes@, i - 1)),
            views_of(out@) + resolved_from(changes@, choices@, i as int) =~= resolved_lines(
                changes@,
                choices@,
            ),
        decreases n - i,
    {
        let ghost out0 = views_of(out@);
        let cov = is_covered(changes, i);
        if cov && !prev_covered {
            proof {
                lemma_upto_le(changes@, i as int);
            }
            hc = hc + 1;
        }
        let kept: bool = if matches!(changes[i].kind, ChangeKind::Equal) {
            true
        } else {
            proof {
                lemma_change_covered(changes@, i as int);
                lemma_covered_in_hunk(changes@, i as int);
                lemma_upto_monotone(changes@, i + 1, changes@.len() as int);
            }
            keeps(&changes[i].kind, &choices[hc - 1])
        };
        if kept {
            out.push(changes[i].line.clone());
        }
        proof {
            let cs = changes@;
            let ch = choices@;
            let contributed: Seq<Seq<char>> = if cs[i as int].kind is Equal {
                seq![cs[i as int].line@]
            } else {
                let h = hunk_index(cs, i as int);
                if 0 <= h < ch.len() {
                    keep_change(cs[i as int], ch[h])
                } else {
                    Seq::empty()
                }
            };
            assert(resolved_from(cs, ch, i as int) == contributed + resolved_from(
                cs,
                ch,
                i + 1,
            ));
            if kept {
                assert(views_of(out@) =~= out0 + contributed);
            } else {
                assert(views_of(out@) =~= out0 + contributed);
            }
            assert((out0 + contributed) + resolved_from(cs, ch, i + 1) =~= out0 + (contributed
                + resolved_from(cs, ch, i + 1)));
        }
        prev_covered = cov;
        i = i + 1;
    }
    proof {
        assert(resolved_from(changes@, choices@, n as int) =~= Seq::<Seq<char>>::empty());
        assert(views_of(out@) + Seq::<Seq<char>>::empty() =~= views_of(out@));
    }
    concat_strings(&out)
}

// ---------------------------------------------------------------------------
// Resolution keeps whole sides
// ---------------------------------------------------------------------------
/// Choosing the store side for every hunk keeps exactly the store's lines.
pub proof fn lemma_resolve_all_skill(cs: Seq<DiffChange>, choices: Seq<Choice>)
    requires
        choices.len() == hunk_count(cs),
        forall|h: int| 0 <= h < choices.len() ==> (#[trigger] choices[h]) is Skill,
    ensures
        resolved_lines(cs, choices) =~= local_lines(cs),
{
    lemma_resolve_all_skill_from(cs, choices, 0);
}

proof fn lemma_resolve_all_skill_from(cs: Seq<DiffChange>, choices: Seq<Choice>, i: int)
    requires
        0 <= i <= cs.len(),
        choices.len() == hunk_count(cs),
        forall|h: int| 0 <= h < choices.len() ==> (#[trigger] choices[h]) is Skill,
    ensures
        resolved_from(cs, choices, i) =~= local_lines_from(cs, i),
    decreases cs.len() - i,
{
    if i < cs.len() {
        lemma_resolve_all_skill_from(cs, choices, i + 1);
        if !(cs[i].kind is Equal) {
            lemma_change_covered(cs, i);
            lemma_covered_in_hunk(cs, i);
            lemma_upto_monotone(cs, i + 1, cs.len() as int);
        }
    }
}

/// Choosing the document side for every hunk keeps exactly the document's
/// lines.
pub proof fn lemma_resolve_all_agents(cs: Seq<DiffChange>, choices: Seq<Choice>)
    requires
        choices.len() == hunk_count(cs),
        forall|h: int| 0 <= h < choices.len() ==> (#[trigger] choices[h]) is Agents,
    ensures
        resolved_lines(cs, choices) =~= remote_lines(cs),
{
    lemma_resolve_all_agents_from(cs, choices, 0);
}

proof fn lemma_resolve_all_agents_from(cs: Seq<DiffChange>, choices: Seq<Choice>, i: int)
    requires
        0 <= i <= cs.len(),
        choices.len() == hunk_count(cs),
        forall|h: int| 0 <= h < choices.len() ==> (#[trigger] choices[h]) is Agents,
    ensures
        resolved_from(cs, choices, i) =~= remote_lines_from(cs, i),
    decreases cs.len() - i,
{
    if i < cs.len() {
        lemma_resolve_all_agents_from(cs, choices, i + 1);
        if !(cs[i].kind is Equal) {
            lemma_change_covered(cs, i);
            lemma_covered_in_hunk(cs, i);
            lemma_upto_monotone(cs, i + 1, cs.len() as int);
        }
    }
}

// ---------------------------------------------------------------------------
// Rendering one hunk
// ---------------------------------------------------------------------------
/// The sign a diff line is shown under.
pub open spec fn sign_of(k: ChangeKind) -> Seq<char> {
    match k {
        ChangeKind::Equal => seq![' '],
        ChangeKind::Delete => seq!['-'],
        ChangeKind::Insert => seq!['+'],
    }
}

/// The unified view of hunk `h`, built from positions before `n`: each
/// covered line of the hunk behind its sign.
pub open spec fn hunk_text_upto(cs: Seq<DiffChange>, h: int, n: int) -> Seq<char>
    decreases n when n >= 0
{
    if n <= 0 {
        Seq::empty()
    } else {
        hunk_text_upto(cs, h, n - 1) + (if covered(cs, n - 1) && hunk_index(cs, n - 1) == h {
            sign_of(cs[n - 1].kind) + cs[n - 1].line@
        } else {
            Seq::empty()
        })
    }
}

/// The unified view of hunk `h`.
pub open spec fn hunk_text(cs: Seq<DiffChange>, h: int) -> Seq<char> {
    hunk_text_upto(cs, h, cs.len() as int)
}

/// Renders one hunk: each of its lines, context included, behind ` `, `-`
/// or `+`.
pub fn render_hunk(changes: &Vec<DiffChange>, h: usize) -> (r: String)
    ensures
        r@ =~= hunk_text(changes@, h as int),
{
    let n = changes.len();
    let mut out = String::new();
    let mut hc: usize = 0;
    let mut i: usize = 0;
    let mut prev_covered = false;
    while i < n
        invariant
            0 <= i <= n,
            n == changes@.len(),
            hc == hunk_count_upto(changes@, i as int),
            prev_covered == (i > 0 && covered(changes@, i - 1)),
            out@ =~= hunk_text_upto(changes@, h as int, i as int),
        decreases n - i,
    {
        let cov = is_covered(changes, i);
        if cov && !prev_covered {
            proof {
                lemma_upto_le(changes@, i as int);
            }
            hc = hc + 1;
        }
        if cov && hc >= 1 && hc - 1 == h {
            proof {
                lemma_covered_in_hunk(changes@, i as int);
            }
            match &changes[i].kind {
                ChangeKind::Equal => out.append(" "),
                ChangeKind::Delete => out.append("-"),
                ChangeKind::Insert => out.append("+"),
            }
            proof {
                reveal_strlit(" ");
                reveal_strlit("-");
                reveal_strlit("+");
                assert(" "@ =~= seq![' ']);
                assert("-"@ =~= seq!['-']);
                assert("+"@ =~= seq!['+']);
            }
            out.append(changes[i].line.as_str());
        } else {
            proof {
                if cov {
                    lemma_covered_in_hunk(changes@, i as int);
                }
                assert(!(covered(changes@, i as int) && hunk_index(changes@, i as int)
                    == h as int));
            }
        }
        prev_covered = cov;
        i = i + 1;
    }
    out
}

} // verus!
