//! Skill store model.
//!
//! A skill is a named markdown snippet.  Names are the security boundary of
//! the store: only names from a conservative allow-list may become path
//! components, so no name can escape the store root.  The store itself is a
//! name-sorted set of entries; callers that keep it on disk mirror it here
//! entry by entry.

use vstd::prelude::*;

use crate::error::AgentError;
use crate::text::text_less;
use crate::text::text_lt;

verus! {

// ---------------------------------------------------------------------------
// Name validation
// ---------------------------------------------------------------------------
/// Characters a skill name may hold: the common safe identifier set.
pub open spec fn allowed_char(c: char) -> bool {
    ||| ('a' as u32) <= (c as u32) && (c as u32) <= ('z' as u32)
    ||| ('A' as u32) <= (c as u32) && (c as u32) <= ('Z' as u32)
    ||| ('0' as u32) <= (c as u32) && (c as u32) <= ('9' as u32)
    ||| c == '-'
    ||| c == '_'
    ||| c == '.'
}

/// Two consecutive dots anywhere in the name.
pub open spec fn has_dot_dot(s: Seq<char>) -> bool {
    exists|i: int| 0 <= i < s.len() - 1 && (#[trigger] s[i]) == '.' && s[i + 1] == '.'
}

/// A name the store accepts: nonempty, from the safe set, and unable to
/// escape the store root when used as a path component.
pub open spec fn valid_skill_name(s: Seq<char>) -> bool {
    &&& s.len() > 0
    &&& (forall|i: int| 0 <= i < s.len() ==> allowed_char(#[trigger] s[i]))
    &&& !has_dot_dot(s)
    &&& s != "."@
}

/// Accepts a name exactly when it is nonempty, drawn from the safe character
/// set, and free of `..`; every store entry point checks this first.
pub fn validate_name(name: &str) -> (r: Result<(), AgentError>)
    ensures
        r is Ok <==> valid_skill_name(name@),
        r is Err ==> r->Err_0 == AgentError::InvalidName,
{
    let n = name.unicode_len();
    if n == 0 {
        return Err(AgentError::InvalidName);
    }
    let mut i: usize = 0;
    while i < n
        invariant
            0 <= i <= n,
            n == name@.len(),
            forall|j: int| 0 <= j < i ==> allowed_char(#[trigger] name@[j]),
            forall|j: int| 0 <= j < i - 1 ==> !((#[trigger] name@[j]) == '.' && name@[j + 1] == '.'),
        decreases n - i,
    {
        let c = name.get_char(i);
        let u = c as u32;
        let ok = (97 <= u && u <= 122) || (65 <= u && u <= 90) || (48 <= u && u <= 57) || c == '-'
            || c == '_' || c == '.';
        if !ok {
            proof {
                assert(('a' as u32) == 97 && ('z' as u32) == 122);
                assert(('A' as u32) == 65 && ('Z' as u32) == 90);
                assert(('0' as u32) == 48 && ('9' as u32) == 57);
                assert(!allowed_char(name@[i as int]));
            }
            return Err(AgentError::InvalidName);
        }
        if i > 0 && c == '.' && name.get_char(i - 1) == '.' {
            proof {
                assert(name@[i - 1] == '.' && name@[i as int] == '.');
                assert(has_dot_dot(name@));
            }
            return Err(AgentError::InvalidName);
        }
        proof {
            assert(('a' as u32) == 97 && ('z' as u32) == 122);
            assert(('A' as u32) == 65 && ('Z' as u32) == 90);
            assert(('0' as u32) == 48 && ('9' as u32) == 57);
        }
        i = i + 1;
    }
    if str_is_dot(name) {
        return Err(AgentError::InvalidName);
    }
    proof {
        if has_dot_dot(name@) {
            let j = choose|j: int|
                0 <= j < name@.len() - 1 && (#[trigger] name@[j]) == '.' && name@[j + 1] == '.';
            assert(false);
        }
    }
    Ok(())
}

/// True when the name is exactly one dot.
fn str_is_dot(name: &str) -> (r: bool)
    ensures
        r == (name@ == "."@),
{
    let n = name.unicode_len();
    proof {
        reveal_strlit(".");
    }
    if n != 1 {
        return false;
    }
    let r = name.get_char(0) == '.';
    proof {
        if r {
            assert(name@ =~= "."@);
        }
    }
    r
}

/// The path of a skill under the store root: `<name>/SKILL.md`.
pub fn skill_rel_path(name: &str) -> (r: String)
    ensures
        r@ == name@ + "/SKILL.md"@,
{
    let mut s = name.to_owned();
    s.append("/SKILL.md");
    s
}

// ---------------------------------------------------------------------------
// The in-memory store
// ---------------------------------------------------------------------------
/// One stored skill.
pub struct Skill {
    pub name: String,
    pub content: String,
}

/// Index of the first entry carrying `name`, or `-1`.
pub open spec fn skill_idx(s: Seq<Skill>, name: Seq<char>) -> int
    decreases s.len(),
{
    if s.len() == 0 {
        -1
    } else if s[0].name@ == name {
        0
    } else {
        let r = skill_idx(s.drop_first(), name);
        if r < 0 {
            -1
        } else {
            r + 1
        }
    }
}

pub open spec fn skills_has(s: Seq<Skill>, name: Seq<char>) -> bool {
    skill_idx(s, name) >= 0
}

/// The content stored under `name`, if any.
pub open spec fn skills_lookup(s: Seq<Skill>, name: Seq<char>) -> Option<Seq<char>> {
    if skills_has(s, name) {
        Option::Some(s[skill_idx(s, name)].content@)
    } else {
        Option::None
    }
}

/// Entries stand in strictly ascending name order.
pub open spec fn sorted_skills(s: Seq<Skill>) -> bool {
    forall|i: int| 0 <= i < s.len() - 1 ==> text_lt(#[trigger] s[i].name@, s[i + 1].name@)
}

pub proof fn lemma_skill_idx(s: Seq<Skill>, name: Seq<char>)
    ensures
        -1 <= skill_idx(s, name) < s.len(),
        skill_idx(s, name) >= 0 ==> s[skill_idx(s, name)].name@ == name,
        forall|x: int|
            0 <= x < s.len() && (skill_idx(s, name) == -1 || x < skill_idx(s, name))
                ==> (#[trigger] s[x].name@) != name,
    decreases s.len(),
{
    if s.len() > 0 && s[0].name@ != name {
        lemma_skill_idx(s.drop_first(), name);
        assert(forall|x: int| 1 <= x < s.len() ==> #[trigger] s[x] == s.drop_first()[x - 1]);
    }
}

pub proof fn lemma_skill_idx_is(s: Seq<Skill>, name: Seq<char>, k: int)
    requires
        0 <= k < s.len(),
        s[k].name@ == name,
        forall|x: int| 0 <= x < k ==> (#[trigger] s[x].name@) != name,
    ensures
        skill_idx(s, name) == k,
    decreases k,
{
    if k > 0 {
        assert(forall|x: int| 1 <= x < s.len() ==> #[trigger] s[x] == s.drop_first()[x - 1]);
        lemma_skill_idx_is(s.drop_first(), name, k - 1);
    }
}

pub proof fn lemma_skill_idx_none(s: Seq<Skill>, name: Seq<char>)
    requires
        forall|x: int| 0 <= x < s.len() ==> (#[trigger] s[x].name@) != name,
    ensures
        skill_idx(s, name) == -1,
{
    lemma_skill_idx(s, name);
    if skill_idx(s, name) >= 0 {
        assert(false);
    }
}

/// Replacing an entry by one of the same name moves every lookup but that
/// name nowhere.
proof fn lemma_lookup_update(s: Seq<Skill>, i: int, sk: Skill, n: Seq<char>)
    requires
        0 <= i < s.len(),
        s[i].name@ == sk.name@,
        n != sk.name@,
    ensures
        skills_lookup(s.update(i, sk), n) == skills_lookup(s, n),
    decreases s.len(),
{
    let s2 = s.update(i, sk);
    if s.len() > 0 {
        if i == 0 {
            assert(s2[0] == sk);
            assert(s2.drop_first() =~= s.drop_first());
            if s[0].name@ == n {
                assert(false);
            }
            lemma_drop_first_lookup(s, n);
            lemma_drop_first_lookup(s2, n);
        } else {
            assert(s2[0] == s[0]);
            assert(s2.drop_first() =~= s.drop_first().update(i - 1, sk));
            if s[0].name@ == n {
            } else {
                lemma_lookup_update(s.drop_first(), i - 1, sk, n);
                lemma_drop_first_lookup(s, n);
                lemma_drop_first_lookup(s2, n);
            }
        }
    }
}

/// Lookup steps over a head entry of another name.
proof fn lemma_drop_first_lookup(s: Seq<Skill>, n: Seq<char>)
    requires
        s.len() > 0,
        s[0].name@ != n,
    ensures
        skills_lookup(s, n) == skills_lookup(s.drop_first(), n),
        skills_has(s, n) == skills_has(s.drop_first(), n),
{
    let r = skill_idx(s.drop_first(), n);
    if r >= 0 {
        lemma_skill_idx(s.drop_first(), n);
        assert(s[r + 1] == s.drop_first()[r]);
    }
}

/// Inserting an entry moves every lookup but its name nowhere.
proof fn lemma_lookup_insert(s: Seq<Skill>, i: int, sk: Skill, n: Seq<char>)
    requires
        0 <= i <= s.len(),
        n != sk.name@,
    ensures
        skills_lookup(s.insert(i, sk), n) == skills_lookup(s, n),
        skills_has(s.insert(i, sk), n) == skills_has(s, n),
    decreases i,
{
    let s2 = s.insert(i, sk);
    if i == 0 {
        assert(s2[0] == sk);
        assert(s2.drop_first() =~= s);
        lemma_drop_first_lookup(s2, n);
    } else {
        assert(s2[0] == s[0]);
        assert(s2.drop_first() =~= s.drop_first().insert(i - 1, sk));
        if s[0].name@ == n {
            assert(skill_idx(s2, n) == 0);
            assert(skill_idx(s, n) == 0);
        } else {
            lemma_lookup_insert(s.drop_first(), i - 1, sk, n);
            lemma_drop_first_lookup(s, n);
            lemma_drop_first_lookup(s2, n);
        }
    }
}

/// Removing an entry moves every lookup but its name nowhere.
proof fn lemma_lookup_remove(s: Seq<Skill>, i: int, n: Seq<char>)
    requires
        0 <= i < s.len(),
        n != s[i].name@,
    ensures
        skills_lookup(s.remove(i), n) == skills_lookup(s, n),
        skills_has(s.remove(i), n) == skills_has(s, n),
    decreases i,
{
    let s2 = s.remove(i);
    if i == 0 {
        assert(s2 =~= s.drop_first());
        lemma_drop_first_lookup(s, n);
    } else {
        assert(s2[0] == s[0]);
        assert(s2.drop_first() =~= s.drop_first().remove(i - 1));
        if s[0].name@ == n {
            assert(skill_idx(s2, n) == 0);
            assert(skill_idx(s, n) == 0);
        } else {
            lemma_lookup_remove(s.drop_first(), i - 1, n);
            lemma_drop_first_lookup(s, n);
            lemma_drop_first_lookup(s2, n);
        }
    }
}

/// An in-memory snapshot of the store: entries sorted by name.
pub struct SkillSet {
    pub entries: Vec<Skill>,
}

impl View for SkillSet {
    type V = Seq<Skill>;

    open spec fn view(&self) -> Seq<Skill> {
        self.entries@
    }
}

impl SkillSet {
    pub open spec fn wf(&self) -> bool {
        sorted_skills(self@)
    }

    /// An empty store.
    pub fn new() -> (r: SkillSet)
        ensures
            r@ =~= Seq::<Skill>::empty(),
            r.wf(),
    {
        SkillSet { entries: Vec::new() }
    }

    /// Whether the store holds `name`.
    pub fn skill_exists(&self, name: &str) -> (r: bool)
        ensures
            r == skills_has(self@, name@),
    {
        let mut i: usize = 0;
        while i < self.entries.len()
            invariant
                0 <= i <= self@.len(),
                forall|x: int| 0 <= x < i ==> (#[trigger] self@[x].name@) != name@,
            decreases self@.len() - i,
        {
            if crate::agents_md::str_eq(self.entries[i].name.as_str(), name) {
                proof {
                    lemma_skill_idx_is(self@, name@, i as int);
                }
                return true;
            }
            i = i + 1;
        }
        proof {
            lemma_skill_idx_none(self@, name@);
        }
        false
    }

    /// The content stored under `name`, or `NotFound`.
    pub fn load_skill(&self, name: &str) -> (r: Result<String, AgentError>)
        ensures
            r is Ok <==> skills_has(self@, name@),
            r is Ok ==> Option::Some(r->Ok_0@) == skills_lookup(self@, name@),
            r is Err ==> r->Err_0 == AgentError::NotFound,
    {
        let mut i: usize = 0;
        while i < self.entries.len()
            invariant
                0 <= i <= self@.len(),
                forall|x: int| 0 <= x < i ==> (#[trigger] self@[x].name@) != name@,
            decreases self@.len() - i,
        {
            if crate::agents_md::str_eq(self.entries[i].name.as_str(), name) {
                proof {
                    lemma_skill_idx_is(self@, name@, i as int);
                }
                return Ok(self.entries[i].content.clone());
            }
            i = i + 1;
        }
        proof {
            lemma_skill_idx_none(self@, name@);
        }
        Err(AgentError::NotFound)
    }

    /// The stored names, in ascending order.
    pub fn list_skill_names(&self) -> (r: Vec<String>)
        ensures
            r@.len() == self@.len(),
            forall|i: int| 0 <= i < r@.len() ==> (#[trigger] r@[i])@ == self@[i].name@,
    {
        let mut r: Vec<String> = Vec::new();
        let mut i: usize = 0;
        while i < self.entries.len()
            invariant
                0 <= i <= self@.len(),
                r@.len() == i,
                forall|x: int| 0 <= x < i ==> (#[trigger] r@[x])@ == self@[x].name@,
            decreases self@.len() - i,
        {
            r.push(self.entries[i].name.clone());
            i = i + 1;
        }
        r
    }

    /// Stores `content` under `name`, replacing any previous content and
    /// keeping the entries sorted.
    pub fn save_skill(&mut self, name: &str, content: &str)
        requires
            old(self).wf(),
        ensures
            final(self).wf(),
            skills_lookup(final(self)@, name@) == Option::Some(content@),
            forall|n: Seq<char>|
                n != name@ ==> skills_lookup(final(self)@, n) == skills_lookup(old(self)@, n)
                    && skills_has(final(self)@, n) == skills_has(old(self)@, n),
            skills_has(final(self)@, name@),
    {
        let ghost s0 = self@;
        let mut i: usize = 0;
        while i < self.entries.len() && text_less(self.entries[i].name.as_str(), name)
            invariant
                0 <= i <= self@.len(),
                self@ == s0,
                forall|x: int| 0 <= x < i ==> text_lt(#[trigger] self@[x].name@, name@),
            decreases self@.len() - i,
        {
            i = i + 1;
        }
        proof {
            lemma_text_lt_props(name@, name@);
            assert(forall|x: int|
                0 <= x < i ==> (#[trigger] s0[x].name@) != name@) by {
                assert(forall|x: int| 0 <= x < i ==> text_lt(#[trigger] s0[x].name@, name@));
                assert(forall|a: Seq<char>| text_lt(a, name@) ==> a != name@) by {
                    assert forall|a: Seq<char>| text_lt(a, name@) implies a != name@ by {
                        lemma_text_lt_props(a, name@);
                    }
                }
            }
        }
        let sk = Skill { name: name.to_owned(), content: content.to_owned() };
        if i < self.entries.len() && crate::agents_md::str_eq(
            self.entries[i].name.as_str(),
            name,
        ) {
            proof {
                lemma_skill_idx_is(s0, name@, i as int);
            }
            self.entries.set(i, sk);
            proof {
                assert(self@ =~= s0.update(i as int, sk));
                lemma_skill_idx_is(self@, name@, i as int);
                assert forall|n: Seq<char>| n != name@ implies skills_lookup(self@, n)
                    == skills_lookup(s0, n) && skills_has(self@, n) == skills_has(s0, n) by {
                    lemma_lookup_update_has(s0, i as int, sk, n);
                }
                assert(sorted_skills(self@)) by {
                    assert(forall|x: int|
                        0 <= x < self@.len() ==> (#[trigger] self@[x].name@) == s0[x].name@);
                }
            }
        } else {
            self.entries.insert(i, sk);
            proof {
                assert(self@ =~= s0.insert(i as int, sk));
                assert(forall|x: int| 0 <= x < i ==> #[trigger] self@[x] == s0[x]);
                lemma_skill_idx_is(self@, name@, i as int);
                assert forall|n: Seq<char>| n != name@ implies skills_lookup(self@, n)
                    == skills_lookup(s0, n) && skills_has(self@, n) == skills_has(s0, n) by {
                    lemma_lookup_insert(s0, i as int, sk, n);
                }
                assert(sorted_skills(self@)) by {
                    if (i as int) < s0.len() {
                        assert(!text_lt(s0[i as int].name@, name@));
                        assert(s0[i as int].name@ != name@);
                        lemma_text_lt_props(s0[i as int].name@, name@);
                        assert(text_lt(name@, s0[i as int].name@));
                    }
                    assert(forall|x: int|
                        i + 1 <= x < self@.len() ==> #[trigger] self@[x] == s0[x - 1]);
                }
            }
        }
    }

    /// Deletes the entry under `name`; absence is no fault.
    pub fn delete_skill(&mut self, name: &str)
        requires
            old(self).wf(),
        ensures
            final(self).wf(),
            !skills_has(final(self)@, name@),
            forall|n: Seq<char>|
                n != name@ ==> skills_lookup(final(self)@, n) == skills_lookup(old(self)@, n)
                    && skills_has(final(self)@, n) == skills_has(old(self)@, n),
    {
        let ghost s0 = self@;
        let mut i: usize = 0;
        while i < self.entries.len()
            invariant
                0 <= i <= self@.len(),
                self@ == s0,
                s0 == old(self)@,
                sorted_skills(s0),
                forall|x: int| 0 <= x < i ==> (#[trigger] self@[x].name@) != name@,
            decreases self@.len() - i,
        {
            if crate::agents_md::str_eq(self.entries[i].name.as_str(), name) {
                proof {
                    lemma_skill_idx_is(s0, name@, i as int);
                }
                self.entries.remove(i);
                proof {
                    assert(self@ =~= s0.remove(i as int));
                    assert forall|n: Seq<char>| n != name@ implies skills_lookup(self@, n)
                        == skills_lookup(s0, n) && skills_has(self@, n) == skills_has(s0, n) by {
                        lemma_lookup_remove(s0, i as int, n);
                    }
                    assert(!skills_has(self@, name@)) by {
                        lemma_sorted_unique(s0, i as int, name@);
                        assert(forall|x: int|
                            0 <= x < self@.len() ==> (#[trigger] self@[x].name@) != name@);
                        lemma_skill_idx_none(self@, name@);
                    }
                    assert(sorted_skills(self@)) by {
                        lemma_sorted_remove(s0, i as int);
                    }
                }
                return ;
            }
            i = i + 1;
        }
        proof {
            lemma_skill_idx_none(self@, name@);
        }
    }
}

/// Replacing an entry keeps both lookup and membership elsewhere.
proof fn lemma_lookup_update_has(s: Seq<Skill>, i: int, sk: Skill, n: Seq<char>)
    requires
        0 <= i < s.len(),
        s[i].name@ == sk.name@,
        n != sk.name@,
    ensures
        skills_lookup(s.update(i, sk), n) == skills_lookup(s, n),
        skills_has(s.update(i, sk), n) == skills_has(s, n),
{
    lemma_lookup_update(s, i, sk, n);
    let s2 = s.update(i, sk);
    if skills_has(s, n) || skills_has(s2, n) {
        assert(skills_lookup(s, n) is Some <==> skills_has(s, n));
        assert(skills_lookup(s2, n) is Some <==> skills_has(s2, n));
    }
}

/// Lexicographic order on texts is irreflexive and connects distinct texts.
pub proof fn lemma_text_lt_props(a: Seq<char>, b: Seq<char>)
    ensures
        a == b ==> !text_lt(a, b),
        !(text_lt(a, b) && text_lt(b, a)),
        a != b ==> (text_lt(a, b) || text_lt(b, a)),
    decreases a.len() + b.len(),
{
    if a.len() > 0 && b.len() > 0 {
        if a[0] == b[0] {
            lemma_text_lt_props(a.drop_first(), b.drop_first());
            if a != b {
                if a.drop_first() == b.drop_first() {
                    assert(a.len() == b.len());
                    assert forall|i: int| 0 <= i < a.len() implies a[i] == b[i] by {
                        if i > 0 {
                            assert(a[i] == a.drop_first()[i - 1]);
                            assert(b[i] == b.drop_first()[i - 1]);
                        }
                    }
                    assert(a =~= b);
                }
            }
        } else {
            vstd::utf8::char_u32_cast(a[0], a[0] as u32);
            vstd::utf8::char_u32_cast(b[0], b[0] as u32);
            assert((a[0] as u32) != (b[0] as u32));
        }
    } else {
        if a.len() == 0 && b.len() > 0 {
            assert(text_lt(a, b));
        }
        if b.len() == 0 && a.len() > 0 {
            assert(text_lt(b, a));
        }
        if a.len() == 0 && b.len() == 0 {
            assert(a =~= b);
        }
    }
}

/// In a sorted store names occur once: around the found index, nowhere else.
proof fn lemma_sorted_unique(s: Seq<Skill>, i: int, name: Seq<char>)
    requires
        sorted_skills(s),
        0 <= i < s.len(),
        s[i].name@ == name,
    ensures
        forall|x: int| 0 <= x < s.len() && x != i ==> (#[trigger] s[x].name@) != name,
{
    assert forall|x: int| 0 <= x < s.len() && x != i implies (#[trigger] s[x].name@) != name by {
        if x < i {
            lemma_sorted_chain(s, x, i);
            lemma_text_lt_props(s[x].name@, name);
        } else {
            lemma_sorted_chain(s, i, x);
            lemma_text_lt_props(name, s[x].name@);
        }
    }
}

/// Sortedness chains across any two positions.
proof fn lemma_sorted_chain(s: Seq<Skill>, i: int, j: int)
    requires
        sorted_skills(s),
        0 <= i < j < s.len(),
    ensures
        text_lt(s[i].name@, s[j].name@),
    decreases j - i,
{
    if i + 1 == j {
    } else {
        lemma_sorted_chain(s, i, j - 1);
        lemma_text_lt_trans(s[i].name@, s[j - 1].name@, s[j].name@);
    }
}

/// Lexicographic order is transitive.
pub proof fn lemma_text_lt_trans(a: Seq<char>, b: Seq<char>, c: Seq<char>)
    requires
        text_lt(a, b),
        text_lt(b, c),
    ensures
        text_lt(a, c),
    decreases a.len() + b.len() + c.len(),
{
    if b.len() > 0 && c.len() > 0 {
        if a.len() > 0 {
            if a[0] == b[0] && b[0] == c[0] {
                lemma_text_lt_trans(a.drop_first(), b.drop_first(), c.drop_first());
            }
        }
    }
}

/// Removing an entry keeps the rest sorted.
proof fn lemma_sorted_remove(s: Seq<Skill>, i: int)
    requires
        sorted_skills(s),
        0 <= i < s.len(),
    ensures
        sorted_skills(s.remove(i)),
{
    let s2 = s.remove(i);
    assert forall|x: int| 0 <= x < s2.len() - 1 implies text_lt(
        #[trigger] s2[x].name@,
        s2[x + 1].name@,
    ) by {
        if x < i - 1 {
        } else if x == i - 1 {
            lemma_sorted_chain(s, i - 1, i + 1);
        } else {
        }
    }
}

} // verus!
