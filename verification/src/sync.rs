//! Sync engine.
//!
//! For every name in the store or among the document's sections the engine
//! classifies the divergence of the two sides, after normalizing line
//! endings and trailing newlines, and derives the actions one sync pass
//! performs: adopt a section the store lacks, or resolve a conflict between
//! the two contents.  Once every pending action is applied, a second pass
//! finds nothing left to do.

use vstd::prelude::*;

use crate::agents_md::has_section;
use crate::agents_md::names_of;
use crate::agents_md::section_content;
use crate::agents_md::AgentsDoc;
use crate::agents_md::SegSpec;
use crate::error::AgentError;
use crate::skills::skills_has;
use crate::skills::skills_lookup;
use crate::skills::lemma_text_lt_props;
use crate::skills::valid_skill_name;
use crate::skills::validate_name;
use crate::skills::SkillSet;
use crate::text::text_less;
use crate::text::text_lt;

verus! {

// ---------------------------------------------------------------------------
// Normalization
// ---------------------------------------------------------------------------
/// Every `\r\n` pair replaced by `\n`.
pub open spec fn strip_crlf(t: Seq<char>) -> Seq<char>
    decreases t.len(),
{
    if t.len() == 0 {
        Seq::empty()
    } else if t.len() >= 2 && t[0] == '\r' && t[1] == '\n' {
        seq!['\n'] + strip_crlf(t.skip(2))
    } else {
        seq![t[0]] + strip_crlf(t.skip(1))
    }
}

/// Trailing newlines dropped.
pub open spec fn trim_trailing_nl(t: Seq<char>) -> Seq<char>
    decreases t.len(),
{
    if t.len() > 0 && t.last() == '\n' {
        trim_trailing_nl(t.drop_last())
    } else {
        t
    }
}

/// The form contents are compared in: line endings unified, trailing
/// newlines ignored.
pub open spec fn normalize(t: Seq<char>) -> Seq<char> {
    trim_trailing_nl(strip_crlf(t))
}

/// Computes the normalized form of a content.
pub fn normalize_content(s: &str) -> (r: Vec<char>)
    ensures
        r@ == normalize(s@),
{
    let n = s.unicode_len();
    let mut v: Vec<char> = Vec::new();
    let mut i: usize = 0;
    proof {
        assert(s@.skip(0) =~= s@);
        assert(Seq::<char>::empty() + strip_crlf(s@) =~= strip_crlf(s@));
    }
    while i < n
        invariant
            0 <= i <= n,
            n == s@.len(),
            strip_crlf(s@) =~= v@ + strip_crlf(s@.skip(i as int)),
        decreases n - i,
    {
        let ghost v0 = v@;
        let ghost rest = s@.skip(i as int);
        let c = s.get_char(i);
        if c == '\r' && i + 1 < n && s.get_char(i + 1) == '\n' {
            v.push('\n');
            proof {
                assert(rest.len() >= 2 && rest[0] == '\r' && rest[1] == '\n');
                assert(rest.skip(2) =~= s@.skip(i + 2));
                assert(strip_crlf(rest) == seq!['\n'] + strip_crlf(s@.skip(i + 2)));
                assert(v@ =~= v0.push('\n'));
                assert(v0 + (seq!['\n'] + strip_crlf(s@.skip(i + 2))) =~= v0.push('\n')
                    + strip_crlf(s@.skip(i + 2)));
            }
            i = i + 2;
        } else {
            v.push(c);
            proof {
                assert(rest.len() >= 1 && rest[0] == c);
                assert(!(rest.len() >= 2 && rest[0] == '\r' && rest[1] == '\n'));
                assert(rest.skip(1) =~= s@.skip(i + 1));
                assert(strip_crlf(rest) == seq![c] + strip_crlf(s@.skip(i + 1)));
                assert(v0 + (seq![c] + strip_crlf(s@.skip(i + 1))) =~= v0.push(c)
                    + strip_crlf(s@.skip(i + 1)));
            }
            i = i + 1;
        }
    }
    proof {
        assert(s@.skip(n as int) =~= Seq::<char>::empty());
        assert(strip_crlf(Seq::<char>::empty()) =~= Seq::<char>::empty());
        assert(v@ + Seq::<char>::empty() =~= v@);
        assert(v@ == strip_crlf(s@));
    }
    while v.len() > 0 && v[v.len() - 1] == '\n'
        invariant
            trim_trailing_nl(v@) == normalize(s@),
        decreases v@.len(),
    {
        let ghost v0 = v@;
        v.pop();
        proof {
            assert(v@ =~= v0.drop_last());
            assert(trim_trailing_nl(v0) == trim_trailing_nl(v0.drop_last()));
        }
    }
    proof {
        assert(trim_trailing_nl(v@) == v@);
    }
    v
}

/// Compares two contents in normalized form.
pub fn normalized_eq(a: &str, b: &str) -> (r: bool)
    ensures
        r == (normalize(a@) == normalize(b@)),
{
    let va = normalize_content(a);
    let vb = normalize_content(b);
    if va.len() != vb.len() {
        proof {
            assert(normalize(a@) != normalize(b@));
        }
        return false;
    }
    let mut i: usize = 0;
    while i < va.len()
        invariant
            0 <= i <= va@.len(),
            va@.len() == vb@.len(),
            va@ == normalize(a@),
            vb@ == normalize(b@),
            forall|j: int| 0 <= j < i ==> va@[j] == vb@[j],
        decreases va@.len() - i,
    {
        if va[i] != vb[i] {
            return false;
        }
        i = i + 1;
    }
    proof {
        assert(va@ =~= vb@);
    }
    true
}

// ---------------------------------------------------------------------------
// Status
// ---------------------------------------------------------------------------
/// Classification of one name's divergence between store and document.
#[derive(Clone, Copy, Debug, PartialEq, Eq, Structural)]
pub enum SyncStatus {
    /// Both sides hold the name with equal normalized contents.
    InSync,
    /// Only the store holds the name.
    Local,
    /// Only the document holds the name.
    Remote,
    /// Both sides hold the name with differing normalized contents.
    Conflict,
}

/// One classified name.
pub struct StatusEntry {
    pub name: String,
    pub status: SyncStatus,
}

/// The classification table over the two sides' contents.
pub open spec fn status_of(sk: Option<Seq<char>>, doc: Option<Seq<char>>) -> Option<SyncStatus> {
    match (sk, doc) {
        (Option::Some(l), Option::Some(r)) => Option::Some(
            if normalize(l) == normalize(r) {
                SyncStatus::InSync
            } else {
                SyncStatus::Conflict
            },
        ),
        (Option::Some(l), Option::None) => Option::Some(SyncStatus::Local),
        (Option::None, Option::Some(r)) => Option::Some(SyncStatus::Remote),
        (Option::None, Option::None) => Option::None,
    }
}

/// The segments of an optional document; an absent document has none.
pub open spec fn doc_segs_opt(doc: Option<&AgentsDoc>) -> Seq<SegSpec> {
    match doc {
        Option::Some(d) => d@,
        Option::None => Seq::empty(),
    }
}

// ---------------------------------------------------------------------------
// Sorted unique name lists
// ---------------------------------------------------------------------------
/// Membership in an owned name list.
pub open spec fn names_has(v: Seq<String>, n: Seq<char>) -> bool {
    exists|j: int| 0 <= j < v.len() && (#[trigger] v[j])@ == n
}

/// Strictly ascending name order.
pub open spec fn sorted_names(v: Seq<String>) -> bool {
    forall|i: int| 0 <= i < v.len() - 1 ==> text_lt((#[trigger] v[i])@, v[i + 1]@)
}

/// Inserts a name into a sorted list, keeping it sorted and duplicate-free.
fn insert_name(v: &mut Vec<String>, name: &str)
    requires
        sorted_names(old(v)@),
    ensures
        sorted_names(final(v)@),
        forall|n: Seq<char>|
            names_has(final(v)@, n) <==> names_has(old(v)@, n) || n == name@,
{
    let ghost v0 = v@;
    let mut i: usize = 0;
    while i < v.len() && text_less(v[i].as_str(), name)
        invariant
            0 <= i <= v@.len(),
            v@ == v0,
            forall|x: int| 0 <= x < i ==> text_lt((#[trigger] v0[x])@, name@),
        decreases v@.len() - i,
    {
        i = i + 1;
    }
    if i < v.len() && crate::agents_md::str_eq(v[i].as_str(), name) {
        proof {
            assert(names_has(v@, name@)) by {
                assert(0 <= i < v@.len() && v@[i as int]@ == name@);
            }
        }
        return ;
    }
    v.insert(i, name.to_owned());
    proof {
        assert(forall|x: int| 0 <= x < i ==> #[trigger] v@[x] == v0[x]);
        assert(forall|x: int| i + 1 <= x < v@.len() ==> #[trigger] v@[x] == v0[x - 1]);
        assert(v@[i as int]@ == name@);
        assert(sorted_names(v@)) by {
            if (i as int) < v0.len() {
                assert(!text_lt(v0[i as int]@, name@));
                assert(v0[i as int]@ != name@);
                lemma_text_lt_props(v0[i as int]@, name@);
            }
        }
        assert forall|n: Seq<char>| names_has(v@, n) <==> names_has(v0, n) || n == name@ by {
            if names_has(v@, n) {
                let j = choose|j: int| 0 <= j < v@.len() && (#[trigger] v@[j])@ == n;
                if j < i {
                    assert(v0[j]@ == n);
                } else if j > i {
                    assert(v0[j - 1]@ == n);
                }
            }
            if names_has(v0, n) {
                let j = choose|j: int| 0 <= j < v0.len() && (#[trigger] v0[j])@ == n;
                if j < i {
                    assert(v@[j]@ == n);
                } else {
                    assert(v@[j + 1]@ == n);
                }
            }
            if n == name@ {
                assert(v@[i as int]@ == n);
            }
        }
    }
}

// ---------------------------------------------------------------------------
// Status computation
// ---------------------------------------------------------------------------
/// Classifies every name in the union of the store's names and the
/// document's section names, each exactly once, in ascending name order.
pub fn compute_sync_status(store: &SkillSet, doc: Option<&AgentsDoc>) -> (r: Vec<StatusEntry>)
    requires
        store.wf(),
    ensures
        sorted_names(r@.map_values(|e: StatusEntry| e.name)),
        forall|i: int|
            0 <= i < r@.len() ==> Option::Some((#[trigger] r@[i]).status) == status_of(
                skills_lookup(store@, r@[i].name@),
                section_content(doc_segs_opt(doc), r@[i].name@),
            ),
        forall|n: Seq<char>|
            (skills_has(store@, n) || has_section(doc_segs_opt(doc), n)) <==> names_has(
                r@.map_values(|e: StatusEntry| e.name),
                n,
            ),
{
    let ghost dsegs = doc_segs_opt(doc);
    let mut names: Vec<String> = Vec::new();
    let store_names = store.list_skill_names();
    let mut i: usize = 0;
    while i < store_names.len()
        invariant
            0 <= i <= store_names@.len(),
            store_names@.len() == store@.len(),
            forall|x: int|
                0 <= x < store_names@.len() ==> (#[trigger] store_names@[x])@ == store@[x].name@,
            sorted_names(names@),
            forall|n: Seq<char>|
                names_has(names@, n) <==> exists|x: int|
                    0 <= x < i && (#[trigger] store@[x].name@) == n,
        decreases store_names@.len() - i,
    {
        let ghost names_pre = names@;
        insert_name(&mut names, store_names[i].as_str());
        proof {
            assert forall|n: Seq<char>|
                names_has(names@, n) <==> exists|x: int|
                    0 <= x < i + 1 && (#[trigger] store@[x].name@) == n by {
                if names_has(names@, n) {
                    assert(names_has(names_pre, n) || n == store_names@[i as int]@);
                    if names_has(names_pre, n) {
                        let x = choose|x: int|
                            0 <= x < i && (#[trigger] store@[x].name@) == n;
                        assert(0 <= x < i + 1 && store@[x].name@ == n);
                    } else {
                        assert(0 <= i < i + 1 && store@[i as int].name@ == n);
                    }
                }
                if exists|x: int| 0 <= x < i + 1 && (#[trigger] store@[x].name@) == n {
                    let x = choose|x: int|
                        0 <= x < i + 1 && (#[trigger] store@[x].name@) == n;
                    if x < i {
                        assert(names_has(names_pre, n));
                    } else {
                        assert(n == store_names@[i as int]@);
                    }
                    assert(names_has(names@, n));
                }
            }
        }
        i = i + 1;
    }
    proof {
        assert forall|n: Seq<char>| names_has(names@, n) <==> skills_has(store@, n) by {
            if skills_has(store@, n) {
                crate::skills::lemma_skill_idx(store@, n);
                let k = crate::skills::skill_idx(store@, n);
                assert(0 <= k < store@.len() && store@[k].name@ == n);
            }
            if names_has(names@, n) {
                let x = choose|x: int|
                    0 <= x < store@.len() && (#[trigger] store@[x].name@) == n;
                crate::skills::lemma_skill_idx(store@, n);
                if crate::skills::skill_idx(store@, n) == -1 {
                    assert(false);
                }
            }
        }
    }
    let doc_names: Vec<String> = match doc {
        Some(d) => d.section_names(),
        None => Vec::new(),
    };
    proof {
        assert(crate::text::views_of(doc_names@) =~= names_of(dsegs));
    }
    let ghost names1 = names@;
    let mut j: usize = 0;
    while j < doc_names.len()
        invariant
            0 <= j <= doc_names@.len(),
            crate::text::views_of(doc_names@) =~= names_of(dsegs),
            sorted_names(names@),
            forall|n: Seq<char>| #![trigger names_has(names1, n)]
                names_has(names1, n) <==> skills_has(store@, n),
            forall|n: Seq<char>| #![trigger names_has(names@, n)] #![trigger names_has(names1, n)]
                names_has(names@, n) <==> names_has(names1, n) || exists|x: int|
                    0 <= x < j && (#[trigger] doc_names@[x])@ == n,
        decreases doc_names@.len() - j,
    {
        let ghost names_pre = names@;
        insert_name(&mut names, doc_names[j].as_str());
        proof {
            assert forall|n: Seq<char>| #![trigger names_has(names@, n)] #![trigger names_has(names1, n)]
                names_has(names@, n) <==> names_has(names1, n) || exists|x: int|
                    0 <= x < j + 1 && (#[trigger] doc_names@[x])@ == n by {
                if names_has(names@, n) {
                    assert(names_has(names_pre, n) || n == doc_names@[j as int]@);
                    if names_has(names_pre, n) {
                        if !names_has(names1, n) {
                            let x = choose|x: int|
                                0 <= x < j && (#[trigger] doc_names@[x])@ == n;
                            assert(0 <= x < j + 1 && doc_names@[x]@ == n);
                        }
                    } else {
                        assert(0 <= j < j + 1 && doc_names@[j as int]@ == n);
                    }
                }
                if names_has(names1, n) {
                    assert(names_has(names_pre, n));
                    assert(names_has(names@, n));
                }
                if exists|x: int| 0 <= x < j + 1 && (#[trigger] doc_names@[x])@ == n {
                    let x = choose|x: int|
                        0 <= x < j + 1 && (#[trigger] doc_names@[x])@ == n;
                    if x == j {
                        assert(n == doc_names@[j as int]@);
                    } else {
                        assert(names_has(names_pre, n));
                    }
                    assert(names_has(names@, n));
                }
            }
        }
        j = j + 1;
    }
    proof {
        assert forall|n: Seq<char>|
            names_has(names@, n) <==> skills_has(store@, n) || has_section(dsegs, n) by {
            crate::agents_md::lemma_names_of_has_section(dsegs, n);
            assert(names_has(names1, n) <==> skills_has(store@, n));
            assert(names_has(names@, n) <==> names_has(names1, n) || exists|x: int|
                0 <= x < doc_names@.len() && (#[trigger] doc_names@[x])@ == n);
            if has_section(dsegs, n) {
                let x = choose|x: int|
                    0 <= x < names_of(dsegs).len() && names_of(dsegs)[x] == n;
                assert(doc_names@[x]@ == n);
            }
            if exists|x: int| 0 <= x < doc_names@.len() && (#[trigger] doc_names@[x])@ == n {
                let x = choose|x: int|
                    0 <= x < doc_names@.len() && (#[trigger] doc_names@[x])@ == n;
                assert(names_of(dsegs)[x] == n);
                assert(names_of(dsegs).contains(n));
            }
        }
    }
    // classify each name of the union
    let mut out: Vec<StatusEntry> = Vec::new();
    let mut k: usize = 0;
    while k < names.len()
        invariant
            0 <= k <= names@.len(),
            sorted_names(names@),
            dsegs == doc_segs_opt(doc),
            store.wf(),
            forall|n: Seq<char>|
                names_has(names@, n) <==> skills_has(store@, n) || has_section(dsegs, n),
            out@.len() == k,
            forall|x: int|
                0 <= x < k ==> (#[trigger] out@[x]).name@ == names@[x]@,
            forall|x: int|
                0 <= x < k ==> Option::Some((#[trigger] out@[x]).status) == status_of(
                    skills_lookup(store@, out@[x].name@),
                    section_content(dsegs, out@[x].name@),
                ),
        decreases names@.len() - k,
    {
        let name = names[k].clone();
        proof {
            assert(names_has(names@, name@)) by {
                assert(0 <= k < names@.len() && names@[k as int]@ == name@);
            }
        }
        let sk: Option<String> = match store.load_skill(name.as_str()) {
            Ok(c) => Some(c),
            Err(_) => None,
        };
        let dc: Option<AgentSectionContent> = doc_section_content(doc, name.as_str());
        let status = match (&sk, &dc) {
            (Some(l), Some(r)) => {
                if normalized_eq(l.as_str(), r.content.as_str()) {
                    SyncStatus::InSync
                } else {
                    SyncStatus::Conflict
                }
            },
            (Some(_), None) => SyncStatus::Local,
            (None, Some(_)) => SyncStatus::Remote,
            (None, None) => {
                proof {
                    assert(false);
                }
                SyncStatus::InSync
            },
        };
        out.push(StatusEntry { name, status });
        k = k + 1;
    }
    proof {
        let names_out = out@.map_values(|e: StatusEntry| e.name);
        assert(names_out.len() == names@.len());
        assert(forall|x: int|
            0 <= x < names_out.len() ==> (#[trigger] names_out[x])@ == names@[x]@);
        assert(sorted_names(names_out)) by {
            assert(forall|i2: int|
                0 <= i2 < names_out.len() - 1 ==> text_lt(
                    (#[trigger] names_out[i2])@,
                    names_out[i2 + 1]@,
                ));
        }
        assert forall|n: Seq<char>|
            (skills_has(store@, n) || has_section(dsegs, n)) <==> names_has(names_out, n) by {
            if names_has(names_out, n) {
                let x = choose|x: int|
                    0 <= x < names_out.len() && (#[trigger] names_out[x])@ == n;
                assert(names@[x]@ == n);
                assert(names_has(names@, n)) by {
                    assert(0 <= x < names@.len() && names@[x]@ == n);
                }
            }
            if names_has(names@, n) {
                let x = choose|x: int| 0 <= x < names@.len() && (#[trigger] names@[x])@ == n;
                assert(names_out[x]@ == n);
                assert(names_has(names_out, n)) by {
                    assert(0 <= x < names_out.len() && names_out[x]@ == n);
                }
            }
        }
    }
    out
}

/// A section's content, carried out of an optional document.
struct AgentSectionContent {
    content: String,
}

/// The first section's content under `name`, out of an optional document.
fn doc_section_content(doc: Option<&AgentsDoc>, name: &str) -> (r: Option<AgentSectionContent>)
    ensures
        r is Some <==> has_section(doc_segs_opt(doc), name@),
        r is Some ==> Option::Some(r->Some_0.content@) == section_content(
            doc_segs_opt(doc),
            name@,
        ),
{
    match doc {
        Some(d) => match d.get_section(name) {
            Some(sec) => Some(AgentSectionContent { content: sec.content_string() }),
            None => None,
        },
        None => {
            proof {
                crate::agents_md::lemma_sec_idx_none(Seq::<SegSpec>::empty(), name@);
            }
            None
        },
    }
}

// ---------------------------------------------------------------------------
// The actions of one sync pass
// ---------------------------------------------------------------------------
/// One pending piece of work for a name the document holds.
pub enum SyncAction {
    /// The store lacks the name: store the section's content as a new skill.
    Adopt { name: String, content: String },
    /// Both sides hold the name with differing normalized contents: resolve
    /// the two contents hunk by hunk.
    Resolve { name: String, local: String, remote: String },
}

/// The work one sync pass owes a document name, if any.
pub open spec fn action_for(store: Seq<crate::skills::Skill>, dsegs: Seq<SegSpec>, n: Seq<
    char,
>) -> Option<(Seq<char>, Seq<char>)> {
    if !skills_has(store, n) {
        Option::Some((Seq::empty(), section_content(dsegs, n)->Some_0))
    } else if normalize(skills_lookup(store, n)->Some_0) != normalize(
        section_content(dsegs, n)->Some_0,
    ) {
        Option::Some((skills_lookup(store, n)->Some_0, section_content(dsegs, n)->Some_0))
    } else {
        Option::None
    }
}

/// The view of one action.
pub open spec fn action_view(a: SyncAction) -> (Seq<char>, (Seq<char>, Seq<char>)) {
    match a {
        SyncAction::Adopt { name, content } => (name@, (Seq::empty(), content@)),
        SyncAction::Resolve { name, local, remote } => (name@, (local@, remote@)),
    }
}

/// Derives the actions of one sync pass: for each section name of the
/// document, in ascending order, adopt it when the store lacks it, resolve
/// it when the two sides differ after normalization.  Every section name
/// must pass validation; the engine never adds store-only names to the
/// document.
#[verifier::rlimit(60)]
pub fn sync_actions(store: &SkillSet, doc: &AgentsDoc) -> (r: Result<
    Vec<SyncAction>,
    AgentError,
>)
    requires
        store.wf(),
    ensures
        r is Ok <==> (forall|n: Seq<char>|
            names_of(doc@).contains(n) ==> valid_skill_name(n)),
        r is Err ==> r->Err_0 == AgentError::InvalidName,
        r is Ok ==> {
            let acts = r->Ok_0;
            &&& forall|x: int|
                0 <= x < acts@.len() ==> has_section(doc@, (#[trigger] action_view(
                    acts@[x],
                )).0) && Option::Some(action_view(acts@[x]).1) == action_for(
                    store@,
                    doc@,
                    action_view(acts@[x]).0,
                )
            &&& forall|n: Seq<char>|
                has_section(doc@, n) && action_for(store@, doc@, n) is Some
                    ==> exists|x: int|
                    0 <= x < acts@.len() && (#[trigger] action_view(acts@[x]).0) == n
        },
{
    let doc_names = doc.section_names();
    proof {
        assert(crate::text::views_of(doc_names@) =~= names_of(doc@));
    }
    let mut names: Vec<String> = Vec::new();
    let mut j: usize = 0;
    while j < doc_names.len()
        invariant
            0 <= j <= doc_names@.len(),
            crate::text::views_of(doc_names@) =~= names_of(doc@),
            sorted_names(names@),
            forall|n: Seq<char>|
                names_has(names@, n) <==> exists|x: int|
                    0 <= x < j && (#[trigger] doc_names@[x])@ == n,
        decreases doc_names@.len() - j,
    {
        let ghost names_pre = names@;
        insert_name(&mut names, doc_names[j].as_str());
        proof {
            assert forall|n: Seq<char>|
                names_has(names@, n) <==> exists|x: int|
                    0 <= x < j + 1 && (#[trigger] doc_names@[x])@ == n by {
                if names_has(names@, n) {
                    assert(names_has(names_pre, n) || n == doc_names@[j as int]@);
                    if names_has(names_pre, n) {
                        let x = choose|x: int|
                            0 <= x < j && (#[trigger] doc_names@[x])@ == n;
                        assert(0 <= x < j + 1 && doc_names@[x]@ == n);
                    } else {
                        assert(0 <= j < j + 1 && doc_names@[j as int]@ == n);
                    }
                }
                if exists|x: int| 0 <= x < j + 1 && (#[trigger] doc_names@[x])@ == n {
                    let x = choose|x: int|
                        0 <= x < j + 1 && (#[trigger] doc_names@[x])@ == n;
                    if x == j {
                        assert(n == doc_names@[j as int]@);
                    } else {
                        assert(names_has(names_pre, n));
                    }
                    assert(names_has(names@, n));
                }
            }
        }
        j = j + 1;
    }
    proof {
        assert forall|n: Seq<char>| names_has(names@, n) <==> names_of(doc@).contains(n) by {
            if names_of(doc@).contains(n) {
                let x = choose|x: int|
                    0 <= x < names_of(doc@).len() && names_of(doc@)[x] == n;
                assert(doc_names@[x]@ == n);
            }
            if exists|x: int| 0 <= x < doc_names@.len() && (#[trigger] doc_names@[x])@ == n {
                let x = choose|x: int|
                    0 <= x < doc_names@.len() && (#[trigger] doc_names@[x])@ == n;
                assert(names_of(doc@)[x] == n);
            }
        }
    }
    let mut out: Vec<SyncAction> = Vec::new();
    let mut k: usize = 0;
    while k < names.len()
        invariant
            0 <= k <= names@.len(),
            store.wf(),
            sorted_names(names@),
            forall|n: Seq<char>| names_has(names@, n) <==> names_of(doc@).contains(n),
            forall|x: int| 0 <= x < k ==> valid_skill_name((#[trigger] names@[x])@),
            forall|x: int|
                0 <= x < out@.len() ==> has_section(doc@, (#[trigger] action_view(
                    out@[x],
                )).0) && Option::Some(action_view(out@[x]).1) == action_for(
                    store@,
                    doc@,
                    action_view(out@[x]).0,
                ),
            forall|x: int|
                0 <= x < k && action_for(store@, doc@, (#[trigger] names@[x])@) is Some
                    && has_section(doc@, names@[x]@) ==> exists|y: int|
                    0 <= y < out@.len() && (#[trigger] action_view(out@[y]).0) == names@[x]@,
        decreases names@.len() - k,
    {
        let name = names[k].clone();
        proof {
            assert(names_has(names@, name@)) by {
                assert(0 <= k < names@.len() && names@[k as int]@ == name@);
            }
            crate::agents_md::lemma_names_of_has_section(doc@, name@);
        }
        if let Err(e) = validate_name(name.as_str()) {
            proof {
                assert(names_of(doc@).contains(name@));
            }
            return Err(e);
        }
        let section = match doc.get_section(name.as_str()) {
            Some(s) => s,
            None => {
                proof {
                    assert(false);
                }
                return Err(AgentError::NotFound);
            },
        };
        let remote = section.content_string();
        match store.load_skill(name.as_str()) {
            Err(_) => {
                let act = SyncAction::Adopt { name: name.clone(), content: remote };
                let ghost out_pre = out@;
                proof {
                    assert(action_view(act).0 == name@);
                    assert(!skills_has(store@, name@));
                    assert(Option::Some(action_view(act).1) == action_for(store@, doc@, name@));
                }
                out.push(act);
                proof {
                    lemma_actions_step(out_pre, out@, names@, k as int, store@, doc@);
                }
            },
            Ok(local) => {
                if !normalized_eq(local.as_str(), remote.as_str()) {
                    let act = SyncAction::Resolve {
                        name: name.clone(),
                        local,
                        remote,
                    };
                    let ghost out_pre = out@;
                    proof {
                        assert(action_view(act).0 == name@);
                        assert(skills_has(store@, name@));
                        assert(Option::Some(action_view(act).1) == action_for(
                            store@,
                            doc@,
                            name@,
                        ));
                    }
                    out.push(act);
                    proof {
                        lemma_actions_step(out_pre, out@, names@, k as int, store@, doc@);
                    }
                } else {
                    proof {
                        assert(action_for(store@, doc@, name@) is None);
                    }
                }
            },
        }
        k = k + 1;
    }
    proof {
        assert forall|n: Seq<char>| names_of(doc@).contains(n) implies valid_skill_name(n) by {
            assert(names_has(names@, n));
            let x = choose|x: int| 0 <= x < names@.len() && (#[trigger] names@[x])@ == n;
        }
        assert forall|n: Seq<char>|
            has_section(doc@, n) && action_for(store@, doc@, n) is Some implies exists|x: int|
            0 <= x < out@.len() && (#[trigger] action_view(out@[x]).0) == n by {
            crate::agents_md::lemma_names_of_has_section(doc@, n);
            assert(names_has(names@, n));
            let x = choose|x: int| 0 <= x < names@.len() && (#[trigger] names@[x])@ == n;
        }
    }
    Ok(out)
}


// ---------------------------------------------------------------------------
// Idempotence of a sync pass
// ---------------------------------------------------------------------------
/// Appending a final newline leaves the crlf-stripped text one newline
/// longer, as long as the text does not end mid carriage return.
proof fn lemma_strip_single(c: Seq<char>)
    requires
        c.len() == 1,
    ensures
        strip_crlf(c) =~= seq![c[0]],
{
    assert(c.skip(1) =~= Seq::<char>::empty());
    assert(strip_crlf(c.skip(1)) == Seq::<char>::empty());
    assert(strip_crlf(c) == seq![c[0]] + strip_crlf(c.skip(1)));
    assert(seq![c[0]] + Seq::<char>::empty() =~= seq![c[0]]);
}

proof fn lemma_strip_append_nl(c: Seq<char>)
    requires
        c.len() > 0,
        c.last() != '\r',
    ensures
        strip_crlf(c + seq!['\n']) =~= strip_crlf(c) + seq!['\n'],
    decreases c.len(),
{
    let e = c + seq!['\n'];
    if c.len() >= 2 && c[0] == '\r' && c[1] == '\n' {
        assert(e.len() >= 2 && e[0] == '\r' && e[1] == '\n');
        assert(e.skip(2) =~= c.skip(2) + seq!['\n']);
        if c.skip(2).len() == 0 {
            assert(e.skip(2) =~= seq!['\n']);
            assert(strip_crlf(seq!['\n']) =~= seq!['\n']) by {
                lemma_strip_single(seq!['\n']);
            }
            assert(strip_crlf(c) == seq!['\n'] + strip_crlf(c.skip(2)));
            assert(strip_crlf(c.skip(2)) == Seq::<char>::empty());
            assert(seq!['\n'] + Seq::<char>::empty() =~= seq!['\n']);
        } else {
            assert(c.skip(2).last() == c.last());
            lemma_strip_append_nl(c.skip(2));
        }
    } else {
        assert(e[0] == c[0]);
        if c.len() == 1 {
            assert(c[0] != '\r');
            assert(!(e.len() >= 2 && e[0] == '\r' && e[1] == '\n'));
            assert(e.skip(1) =~= seq!['\n']);
            assert(strip_crlf(seq!['\n']) =~= seq!['\n']) by {
                lemma_strip_single(seq!['\n']);
            }
            assert(strip_crlf(c) =~= seq![c[0]]) by {
                lemma_strip_single(c);
            }
        } else {
            assert(!(e.len() >= 2 && e[0] == '\r' && e[1] == '\n'));
            assert(e.skip(1) =~= c.skip(1) + seq!['\n']);
            assert(c.skip(1).last() == c.last());
            lemma_strip_append_nl(c.skip(1));
        }
    }
}

/// Supplying a final newline changes nothing after normalization, as long
/// as the content does not end with a carriage return.
pub proof fn lemma_normalize_terminated(c: Seq<char>)
    requires
        c.len() == 0 || c.last() != '\r',
    ensures
        normalize(crate::agents_md::terminated_text(c)) == normalize(c),
{
    let t = crate::agents_md::terminated_text(c);
    if c.len() > 0 && c.last() != '\n' {
        lemma_strip_append_nl(c);
        let s = strip_crlf(c);
        assert(strip_crlf(t) == s + seq!['\n']);
        assert((s + seq!['\n']).last() == '\n');
        assert((s + seq!['\n']).drop_last() =~= s);
        assert(trim_trailing_nl(s + seq!['\n']) == trim_trailing_nl(s));
    }
}

/// A store that already carries every section, with equal normalized
/// contents, leaves a sync pass with nothing to do.
pub proof fn lemma_sync_idempotent(store: Seq<crate::skills::Skill>, dsegs: Seq<SegSpec>)
    requires
        forall|n: Seq<char>|
            #[trigger] has_section(dsegs, n) ==> skills_has(store, n) && normalize(
                skills_lookup(store, n)->Some_0,
            ) == normalize(section_content(dsegs, n)->Some_0),
    ensures
        forall|n: Seq<char>|
            #[trigger] has_section(dsegs, n) ==> action_for(store, dsegs, n) is None,
{
}

/// A resolved name is in sync: the store holds the resolution, the document
/// holds it behind its heading with a final newline supplied.
pub proof fn lemma_resolved_in_sync(
    store: Seq<crate::skills::Skill>,
    dsegs: Seq<SegSpec>,
    name: Seq<char>,
    c: Seq<char>,
)
    requires
        skills_lookup(store, name) == Option::Some(c),
        section_content(dsegs, name) == Option::Some(crate::agents_md::terminated_text(c)),
        c.len() == 0 || c.last() != '\r',
    ensures
        action_for(store, dsegs, name) is None,
{
    lemma_normalize_terminated(c);
}

/// One appended action keeps every earlier name's action findable.
proof fn lemma_actions_step(
    out_pre: Seq<SyncAction>,
    out_now: Seq<SyncAction>,
    names: Seq<String>,
    k: int,
    store: Seq<crate::skills::Skill>,
    dsegs: Seq<SegSpec>,
)
    requires
        0 <= k < names.len(),
        out_now.len() == out_pre.len() + 1,
        forall|y: int| 0 <= y < out_pre.len() ==> #[trigger] out_now[y] == out_pre[y],
        action_view(out_now.last()).0 == names[k]@,
        forall|x: int|
            0 <= x < k && action_for(store, dsegs, (#[trigger] names[x])@) is Some
                && has_section(dsegs, names[x]@) ==> exists|y: int|
                0 <= y < out_pre.len() && (#[trigger] action_view(out_pre[y]).0) == names[x]@,
    ensures
        forall|x: int|
            0 <= x < k + 1 && action_for(store, dsegs, (#[trigger] names[x])@) is Some
                && has_section(dsegs, names[x]@) ==> exists|y: int|
                0 <= y < out_now.len() && (#[trigger] action_view(out_now[y]).0) == names[x]@,
{
    assert forall|x: int|
        0 <= x < k + 1 && action_for(store, dsegs, (#[trigger] names[x])@) is Some
            && has_section(dsegs, names[x]@) implies exists|y: int|
        0 <= y < out_now.len() && (#[trigger] action_view(out_now[y]).0) == names[x]@ by {
        if x < k {
            let y = choose|y: int|
                0 <= y < out_pre.len() && (#[trigger] action_view(out_pre[y]).0) == names[x]@;
            assert(out_now[y] == out_pre[y]);
            assert(action_view(out_now[y]).0 == names[x]@);
        } else {
            assert(action_view(out_now[out_now.len() - 1]).0 == names[x]@);
        }
    }
}

} // verus!
