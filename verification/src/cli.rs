//! Command-line surface of the tool, as plain data.
//!
//! The argument parser proper lives with the binary; the library holds the
//! parsed shape and the argument expansion rules.

use vstd::prelude::*;

use crate::error::AgentError;
use crate::text::trim_spec;
use crate::text::trim_str;
use crate::text::views_of;

verus! {

/// The parsed invocation.
pub struct Cli {
    pub command: Command,
    /// Configuration overrides, each of the shape `key:value`.
    pub config_overrides: Vec<String>,
    /// Directory holding the skill files.
    pub skills_dir: Option<String>,
    /// Path of the agent document.
    pub agents_path: Option<String>,
}

/// One subcommand.
pub enum Command {
    /// Build the agent document from selected skills.
    Get { skills: Vec<String> },
    /// Store a skill file under a name.
    SetSkill { name: String, path: String },
    /// Sync skills with the agent document.
    Sync,
    /// Sync skills and pull remote changes.
    SyncRemote,
    /// List available skills.
    List { fragment: Option<String> },
    /// List local skills and sync status.
    Local,
    /// Get or set configuration values.
    Config { action: Option<ConfigAction> },
    /// Remove a skill section from the agent document.
    Delete { name: String },
    /// Remove a skill section and delete its stored skill.
    DeleteGlobally { name: String },
}

/// A configuration subcommand.
pub enum ConfigAction {
    SetValue { name: String, value: String },
    Get { name: String },
}

/// Whether the startup banner is shown: everywhere but a filtered list.
pub open spec fn banner_spec(c: Command) -> bool {
    !(c matches Command::List { fragment: Option::Some(_) })
}

/// The banner is suppressed only for a filtered list, whose output is meant
/// for other tools.
pub fn should_print_banner(cli: &Cli) -> (r: bool)
    ensures
        r == banner_spec(cli.command),
{
    match &cli.command {
        Command::List { fragment: Some(_) } => false,
        _ => true,
    }
}

// ---------------------------------------------------------------------------
// Skill argument expansion
// ---------------------------------------------------------------------------
/// First comma at or after `from`, or the end.
pub open spec fn find_comma(t: Seq<char>, from: int) -> int
    decreases t.len() - from when 0 <= from <= t.len()
{
    if from >= t.len() {
        t.len() as int
    } else if t[from] == ',' {
        from
    } else {
        find_comma(t, from + 1)
    }
}

/// The comma-separated pieces of `t[from..]`.
pub open spec fn split_commas(t: Seq<char>, from: int) -> Seq<Seq<char>>
    decreases t.len() - from when 0 <= from <= t.len()
    via split_commas_decreases
{
    let k = find_comma(t, from);
    if k == t.len() {
        seq![t.subrange(from, k)]
    } else {
        seq![t.subrange(from, k)] + split_commas(t, k + 1)
    }
}

#[via_fn]
proof fn split_commas_decreases(t: Seq<char>, from: int) {
    lemma_find_comma(t, from);
}

proof fn lemma_find_comma(t: Seq<char>, from: int)
    requires
        0 <= from <= t.len(),
    ensures
        from <= find_comma(t, from) <= t.len(),
        find_comma(t, from) < t.len() ==> t[find_comma(t, from)] == ',',
        forall|i: int| from <= i < find_comma(t, from) ==> t[i] != ',',
    decreases t.len() - from,
{
    if from < t.len() && t[from] != ',' {
        lemma_find_comma(t, from + 1);
    }
}

proof fn lemma_find_comma_is(t: Seq<char>, from: int, k: int)
    requires
        0 <= from <= k <= t.len(),
        forall|j: int| from <= j < k ==> (#[trigger] t[j]) != ',',
        k < t.len() ==> t[k] == ',',
    ensures
        find_comma(t, from) == k,
    decreases k - from,
{
    if from < k {
        lemma_find_comma_is(t, from + 1, k);
    }
}

/// The trimmed, nonempty pieces.
pub open spec fn kept_names(parts: Seq<Seq<char>>) -> Seq<Seq<char>>
    decreases parts.len(),
{
    if parts.len() == 0 {
        Seq::empty()
    } else {
        (if trim_spec(parts[0]).len() > 0 {
            seq![trim_spec(parts[0])]
        } else {
            Seq::empty()
        }) + kept_names(parts.drop_first())
    }
}

/// Every skill name the arguments carry: each argument split on commas,
/// each piece trimmed, empty pieces dropped.
pub open spec fn expand_spec(args: Seq<Seq<char>>) -> Seq<Seq<char>>
    decreases args.len(),
{
    if args.len() == 0 {
        Seq::empty()
    } else {
        kept_names(split_commas(args[0], 0)) + expand_spec(args.drop_first())
    }
}

/// Splits comma- or space-separated skill arguments into names; at least
/// one name is owed.
pub fn expand_skill_args(args: Vec<String>) -> (r: Result<Vec<String>, AgentError>)
    ensures
        r is Ok <==> expand_spec(views_of(args@)).len() > 0,
        r is Ok ==> views_of(r->Ok_0@) == expand_spec(views_of(args@)),
        r is Err ==> r->Err_0 == AgentError::InvalidName,
{
    let mut names: Vec<String> = Vec::new();
    let mut i: usize = 0;
    proof {
        assert(views_of(args@.subrange(0, 0)) =~= Seq::<Seq<char>>::empty());
        assert(expand_spec(Seq::<Seq<char>>::empty()) == Seq::<Seq<char>>::empty());
        assert(views_of(names@) + Seq::<Seq<char>>::empty() =~= views_of(names@));
    }
    while i < args.len()
        invariant
            0 <= i <= args@.len(),
            views_of(names@) =~= expand_spec(views_of(args@.subrange(0, i as int))),
        decreases args@.len() - i,
    {
        let ghost pre = views_of(names@);
        let arg = &args[i];
        let n = arg.as_str().unicode_len();
        let mut from: usize = 0;
        let mut done = false;
        while !done
            invariant
                0 <= from <= n,
                n == arg@.len(),
                arg == args@[i as int],
                done ==> views_of(names@) =~= pre + kept_names(split_commas(arg@, 0)),
                !done ==> views_of(names@) + kept_names(split_commas(arg@, from as int)) =~= pre
                    + kept_names(split_commas(arg@, 0)),
            decreases n - from + (if done { 0int } else { 1int }),
        {
            let k = scan_comma(arg.as_str(), from);
            let piece = trim_str(arg.as_str().substring_char(from, k));
            let ghost parts_here = split_commas(arg@, from as int);
            let ghost views0 = views_of(names@);
            proof {
                lemma_find_comma(arg@, from as int);
                assert(piece@ == trim_spec(arg@.subrange(from as int, k as int)));
                assert(parts_here[0] == arg@.subrange(from as int, k as int));
                if k < n {
                    assert(parts_here.drop_first() =~= split_commas(arg@, k + 1));
                }
            }
            let kept = piece.as_str().unicode_len() > 0;
            if kept {
                names.push(piece);
            }
            let ghost contributed: Seq<Seq<char>> = if trim_spec(parts_here[0]).len() > 0 {
                seq![trim_spec(parts_here[0])]
            } else {
                Seq::empty()
            };
            proof {
                assert(views_of(names@) =~= views0 + contributed);
            }
            if k == n {
                done = true;
                proof {
                    assert(parts_here =~= seq![arg@.subrange(from as int, k as int)]);
                    assert(seq![arg@.subrange(from as int, k as int)].drop_first() =~= Seq::<
                        Seq<char>,
                    >::empty());
                    assert(kept_names(parts_here) == contributed + kept_names(
                        Seq::<Seq<char>>::empty(),
                    ));
                    assert(contributed + Seq::<Seq<char>>::empty() =~= contributed);
                    assert((views0 + contributed) =~= views0 + kept_names(parts_here));
                    assert(views0 + kept_names(parts_here) =~= pre + kept_names(
                        split_commas(arg@, 0),
                    ));
                }
            } else {
                from = k + 1;
                proof {
                    assert(kept_names(parts_here) == contributed + kept_names(
                        split_commas(arg@, k + 1),
                    ));
                    assert((views0 + contributed) + kept_names(split_commas(arg@, k + 1)) =~=
                        views0 + (contributed + kept_names(split_commas(arg@, k + 1))));
                }
            }
        }
        proof {
            assert(views_of(args@.subrange(0, i + 1)) =~= views_of(
                args@.subrange(0, i as int),
            ).push(arg@));
            lemma_expand_snoc(views_of(args@.subrange(0, i as int)), arg@);
        }
        i = i + 1;
    }
    proof {
        assert(args@.subrange(0, args@.len() as int) =~= args@);
    }
    if names.len() == 0 {
        return Err(AgentError::InvalidName);
    }
    Ok(names)
}

/// Expansion peels arguments from the back as well.
proof fn lemma_expand_snoc(args: Seq<Seq<char>>, last: Seq<char>)
    ensures
        expand_spec(args.push(last)) =~= expand_spec(args) + kept_names(split_commas(last, 0)),
    decreases args.len(),
{
    let all = args.push(last);
    if args.len() == 0 {
        assert(all[0] == last);
        assert(all.drop_first() =~= Seq::<Seq<char>>::empty());
        assert(expand_spec(all) == kept_names(split_commas(last, 0)) + expand_spec(
            Seq::<Seq<char>>::empty(),
        ));
        assert(kept_names(split_commas(last, 0)) + Seq::<Seq<char>>::empty() =~= kept_names(
            split_commas(last, 0),
        ));
        assert(expand_spec(args) =~= Seq::<Seq<char>>::empty());
    } else {
        assert(all[0] == args[0]);
        assert(all.drop_first() =~= args.drop_first().push(last));
        lemma_expand_snoc(args.drop_first(), last);
        assert(kept_names(split_commas(args[0], 0)) + (expand_spec(args.drop_first())
            + kept_names(split_commas(last, 0))) =~= (kept_names(split_commas(args[0], 0))
            + expand_spec(args.drop_first())) + kept_names(split_commas(last, 0)));
    }
}

/// Position of the first comma at or after `from`.
fn scan_comma(s: &str, from: usize) -> (r: usize)
    requires
        from <= s@.len(),
    ensures
        r == find_comma(s@, from as int),
        from <= r <= s@.len(),
{
    let n = s.unicode_len();
    let mut i = from;
    while i < n && s.get_char(i) != ','
        invariant
            from <= i <= n,
            n == s@.len(),
            forall|j: int| from <= j < i ==> (#[trigger] s@[j]) != ',',
        decreases n - i,
    {
        i = i + 1;
    }
    proof {
        lemma_find_comma_is(s@, from as int, i as int);
    }
    i
}

// ---------------------------------------------------------------------------
// Configuration overrides
// ---------------------------------------------------------------------------
/// One parsed `key:value` override.
pub struct OverrideEntry {
    pub key: String,
    pub value: String,
}

/// First colon at or after `from`, or the end.
pub open spec fn find_colon(t: Seq<char>, from: int) -> int
    decreases t.len() - from when 0 <= from <= t.len()
{
    if from >= t.len() {
        t.len() as int
    } else if t[from] == ':' {
        from
    } else {
        find_colon(t, from + 1)
    }
}

/// The parsed form of one override: the trimmed key before the first colon,
/// and everything after it; `None` without a colon or with a blank key.
pub open spec fn override_of(t: Seq<char>) -> Option<(Seq<char>, Seq<char>)> {
    let k = find_colon(t, 0);
    if k == t.len() {
        Option::None
    } else {
        let key = trim_spec(t.subrange(0, k));
        if key.len() == 0 {
            Option::None
        } else {
            Option::Some((key, t.subrange(k + 1, t.len() as int)))
        }
    }
}

proof fn lemma_find_colon_is(t: Seq<char>, from: int, k: int)
    requires
        0 <= from <= k <= t.len(),
        forall|j: int| from <= j < k ==> (#[trigger] t[j]) != ':',
        k < t.len() ==> t[k] == ':',
    ensures
        find_colon(t, from) == k,
    decreases k - from,
{
    if from < k {
        lemma_find_colon_is(t, from + 1, k);
    }
}

/// Splits each `key:value` override; a value without a colon or with a
/// blank key is refused.
pub fn parse_config_overrides(values: &Vec<String>) -> (r: Result<
    Vec<OverrideEntry>,
    AgentError,
>)
    ensures
        r is Ok <==> (forall|x: int|
            0 <= x < values@.len() ==> override_of((#[trigger] values@[x])@) is Some),
        r is Ok ==> r->Ok_0@.len() == values@.len() && forall|x: int|
            0 <= x < values@.len() ==> Option::Some(
                ((#[trigger] r->Ok_0@[x]).key@, r->Ok_0@[x].value@),
            ) == override_of(values@[x]@),
        r is Err ==> r->Err_0 == AgentError::InvalidName,
{
    let mut out: Vec<OverrideEntry> = Vec::new();
    let mut i: usize = 0;
    while i < values.len()
        invariant
            0 <= i <= values@.len(),
            out@.len() == i,
            forall|x: int|
                0 <= x < i ==> override_of((#[trigger] values@[x])@) is Some,
            forall|x: int|
                0 <= x < i ==> Option::Some(
                    ((#[trigger] out@[x]).key@, out@[x].value@),
                ) == override_of(values@[x]@),
        decreases values@.len() - i,
    {
        let v = &values[i];
        let n = v.as_str().unicode_len();
        let mut k: usize = 0;
        while k < n && v.as_str().get_char(k) != ':'
            invariant
                0 <= k <= n,
                n == v@.len(),
                forall|j: int| 0 <= j < k ==> (#[trigger] v@[j]) != ':',
            decreases n - k,
        {
            k = k + 1;
        }
        proof {
            lemma_find_colon_is(v@, 0, k as int);
        }
        if k == n {
            return Err(AgentError::InvalidName);
        }
        let key = trim_str(v.as_str().substring_char(0, k));
        if key.as_str().unicode_len() == 0 {
            return Err(AgentError::InvalidName);
        }
        let value = v.as_str().substring_char(k + 1, n).to_owned();
        out.push(OverrideEntry { key, value });
        i = i + 1;
    }
    Ok(out)
}

} // verus!
