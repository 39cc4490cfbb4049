//! Runner configuration.
//!
//! The configuration names the agent tool to run, per-tool program paths,
//! extra arguments, per-lifecycle model overrides, and gating commands.

use vstd::prelude::*;

use crate::text::dec_str;
use crate::text::u64_to_string;
use crate::text::views_of;

verus! {

/// The kind of agent tool the runner drives.
#[derive(Clone, Copy, Debug, PartialEq, Eq, Hash, Structural)]
pub enum ToolType {
    Cursor,
    Opencode,
}

/// Configuration for a specific lifecycle.
#[derive(Clone, Debug)]
pub struct LifecycleConfig {
    pub model: Option<String>,
}

/// A lifecycle's configuration under its key.
#[derive(Clone, Debug)]
pub struct LifecycleEntry {
    pub key: String,
    pub config: LifecycleConfig,
}

/// Command definition for a gating step.
#[derive(Clone, Debug)]
pub struct GateCommand {
    pub name: Option<String>,
    pub command: String,
    pub args: Vec<String>,
}

/// A program path set for one tool type.
#[derive(Clone, Debug)]
pub struct ToolPath {
    pub tool: ToolType,
    pub path: String,
}

/// Runner configuration.
#[derive(Clone, Debug)]
pub struct Config {
    pub cli_program: String,
    pub tool_type: Option<ToolType>,
    pub tool_paths: Vec<ToolPath>,
    pub cli_args: Vec<String>,
    pub lifecycles: Vec<LifecycleEntry>,
    pub gates: Vec<GateCommand>,
}

// ---------------------------------------------------------------------------
// Model resolution
// ---------------------------------------------------------------------------
/// The model of the first lifecycle entry under `key` carrying one.
pub open spec fn model_override(entries: Seq<LifecycleEntry>, key: Seq<char>) -> Option<
    Seq<char>,
>
    decreases entries.len(),
{
    if entries.len() == 0 {
        Option::None
    } else if entries[0].key@ == key {
        match entries[0].config.model {
            Option::Some(m) => Option::Some(m@),
            Option::None => Option::None,
        }
    } else {
        model_override(entries.drop_first(), key)
    }
}

/// The default model of a lifecycle stage.
pub open spec fn default_model(lifecycle: u8) -> Seq<char> {
    if lifecycle == 2 || lifecycle == 4 || lifecycle == 5 {
        "opus 4.5 max mode"@
    } else if lifecycle == 3 {
        "codex 5.2 max mode"@
    } else {
        "gpt codex 5.2 max mode"@
    }
}

/// The model a lifecycle runs under: its configured override, else the
/// stage's default.
pub open spec fn model_for_spec(c: Config, lifecycle: u8) -> Seq<char> {
    match model_override(c.lifecycles@, dec_str(lifecycle as nat)) {
        Option::Some(m) => m,
        Option::None => default_model(lifecycle),
    }
}

// ---------------------------------------------------------------------------
// Program resolution
// ---------------------------------------------------------------------------
/// Appends a value unless the list already holds it.
pub open spec fn push_unique_spec(s: Seq<Seq<char>>, v: Seq<char>) -> Seq<Seq<char>> {
    if s.contains(v) {
        s
    } else {
        s.push(v)
    }
}

/// The path configured for a tool, if any.
pub open spec fn tool_path_of(paths: Seq<ToolPath>, tool: ToolType) -> Option<Seq<char>>
    decreases paths.len(),
{
    if paths.len() == 0 {
        Option::None
    } else if paths[0].tool == tool {
        Option::Some(paths[0].path@)
    } else {
        tool_path_of(paths.drop_first(), tool)
    }
}

/// The effective tool type: the configured one, else Cursor.
pub open spec fn effective_tool(c: Config) -> ToolType {
    match c.tool_type {
        Option::Some(t) => t,
        Option::None => ToolType::Cursor,
    }
}

/// The program candidates of a tool type, tried in order.
pub open spec fn tool_defaults(tool: ToolType) -> Seq<Seq<char>> {
    match tool {
        ToolType::Cursor => seq!["cursor-agent"@, "agent"@, "cursor"@],
        ToolType::Opencode => seq!["opencode"@],
    }
}

/// Folds a candidate list into a duplicate-free program list.
pub open spec fn push_all_unique(s: Seq<Seq<char>>, vs: Seq<Seq<char>>) -> Seq<Seq<char>>
    decreases vs.len(),
{
    if vs.len() == 0 {
        s
    } else {
        push_all_unique(push_unique_spec(s, vs[0]), vs.drop_first())
    }
}

/// The program candidates the runner tries, in order: the tool's configured
/// path, the configured program, then the tool's defaults, without
/// duplicates.
pub open spec fn programs_spec(c: Config) -> Seq<Seq<char>> {
    let tool = effective_tool(c);
    let base: Seq<Seq<char>> = match tool_path_of(c.tool_paths@, tool) {
        Option::Some(p) => push_unique_spec(Seq::empty(), p),
        Option::None => Seq::empty(),
    };
    push_all_unique(push_unique_spec(base, c.cli_program@), tool_defaults(tool))
}

/// Appends `value` unless `programs` already holds it.
pub fn push_unique(programs: &mut Vec<String>, value: &str)
    ensures
        views_of(final(programs)@) == push_unique_spec(views_of(old(programs)@), value@),
{
    let ghost v0 = views_of(programs@);
    let mut i: usize = 0;
    while i < programs.len()
        invariant
            0 <= i <= programs@.len(),
            views_of(programs@) == v0,
            forall|x: int| 0 <= x < i ==> (#[trigger] programs@[x])@ != value@,
        decreases programs@.len() - i,
    {
        if crate::agents_md::str_eq(programs[i].as_str(), value) {
            proof {
                assert(v0[i as int] == value@);
                assert(v0.contains(value@));
            }
            return ;
        }
        i = i + 1;
    }
    proof {
        if v0.contains(value@) {
            let x = choose|x: int| 0 <= x < v0.len() && v0[x] == value@;
            assert(programs@[x]@ == value@);
            assert(false);
        }
    }
    programs.push(value.to_owned());
    proof {
        assert(views_of(programs@) =~= v0.push(value@));
    }
}

impl Config {
    /// The model name for a lifecycle, with the stage defaults.
    pub fn model_for(&self, lifecycle: u8) -> (r: String)
        ensures
            r@ == model_for_spec(*self, lifecycle),
    {
        let key = u64_to_string(lifecycle as u64);
        let mut i: usize = 0;
        proof {
            assert(self.lifecycles@.skip(0) =~= self.lifecycles@);
        }
        while i < self.lifecycles.len()
            invariant
                0 <= i <= self.lifecycles@.len(),
                key@ == dec_str(lifecycle as nat),
                model_override(self.lifecycles@, key@) == model_override(
                    self.lifecycles@.skip(i as int),
                    key@,
                ),
            decreases self.lifecycles@.len() - i,
        {
            let ghost rest = self.lifecycles@.skip(i as int);
            proof {
                assert(rest[0] == self.lifecycles@[i as int]);
                assert(rest.drop_first() =~= self.lifecycles@.skip(i + 1));
            }
            if crate::agents_md::str_eq(self.lifecycles[i].key.as_str(), key.as_str()) {
                match &self.lifecycles[i].config.model {
                    Some(m) => {
                        return m.clone();
                    },
                    None => {
                        return self.default_model_exec(lifecycle);
                    },
                }
            }
            i = i + 1;
        }
        proof {
            assert(self.lifecycles@.skip(self.lifecycles@.len() as int) =~= Seq::<
                LifecycleEntry,
            >::empty());
        }
        self.default_model_exec(lifecycle)
    }

    fn default_model_exec(&self, lifecycle: u8) -> (r: String)
        ensures
            r@ == default_model(lifecycle),
    {
        if lifecycle == 2 || lifecycle == 4 || lifecycle == 5 {
            "opus 4.5 max mode".to_owned()
        } else if lifecycle == 3 {
            "codex 5.2 max mode".to_owned()
        } else {
            "gpt codex 5.2 max mode".to_owned()
        }
    }

    /// Program candidates with fallbacks for the tool type, in order.
    pub fn resolve_programs(&self) -> (r: Vec<String>)
        ensures
            views_of(r@) == programs_spec(*self),
    {
        let tool = match self.tool_type {
            Some(t) => t,
            None => ToolType::Cursor,
        };
        let mut programs: Vec<String> = Vec::new();
        let mut i: usize = 0;
        let mut found = false;
        proof {
            assert(self.tool_paths@.skip(0) =~= self.tool_paths@);
        }
        while i < self.tool_paths.len() && !found
            invariant
                0 <= i <= self.tool_paths@.len(),
                tool == effective_tool(*self),
                tool_path_of(self.tool_paths@, tool) == tool_path_of(
                    self.tool_paths@.skip(i as int),
                    tool,
                ),
                !found ==> programs@.len() == 0,
                found ==> tool_path_of(self.tool_paths@, tool) is Some && views_of(programs@)
                    == push_unique_spec(
                    Seq::<Seq<char>>::empty(),
                    tool_path_of(self.tool_paths@, tool)->Some_0,
                ),
            decreases self.tool_paths@.len() - i + (if found { 0int } else { 1int }),
        {
            let ghost rest = self.tool_paths@.skip(i as int);
            proof {
                assert(rest[0] == self.tool_paths@[i as int]);
                assert(rest.drop_first() =~= self.tool_paths@.skip(i + 1));
            }
            if self.tool_paths[i].tool == tool {
                push_unique(&mut programs, self.tool_paths[i].path.as_str());
                found = true;
            } else {
                i = i + 1;
            }
        }
        proof {
            if !found {
                assert(self.tool_paths@.skip(self.tool_paths@.len() as int) =~= Seq::<
                    ToolPath,
                >::empty());
                assert(views_of(programs@) =~= Seq::<Seq<char>>::empty());
            }
        }
        push_unique(&mut programs, self.cli_program.as_str());
        match tool {
            ToolType::Cursor => {
                proof {
                    lemma_push_all_unfold3(
                        views_of(programs@),
                        "cursor-agent"@,
                        "agent"@,
                        "cursor"@,
                    );
                }
                push_unique(&mut programs, "cursor-agent");
                push_unique(&mut programs, "agent");
                push_unique(&mut programs, "cursor");
            },
            ToolType::Opencode => {
                proof {
                    lemma_push_all_unfold1(views_of(programs@), "opencode"@);
                }
                push_unique(&mut programs, "opencode");
            },
        }
        programs
    }
}

proof fn lemma_push_all_unfold1(s: Seq<Seq<char>>, a: Seq<char>)
    ensures
        push_all_unique(s, seq![a]) == push_unique_spec(s, a),
{
    assert(seq![a].drop_first() =~= Seq::<Seq<char>>::empty());
    assert(push_all_unique(push_unique_spec(s, a), Seq::<Seq<char>>::empty())
        == push_unique_spec(s, a));
}

proof fn lemma_push_all_unfold3(s: Seq<Seq<char>>, a: Seq<char>, b: Seq<char>, c: Seq<char>)
    ensures
        push_all_unique(s, seq![a, b, c]) == push_unique_spec(
            push_unique_spec(push_unique_spec(s, a), b),
            c,
        ),
{
    let l3 = seq![a, b, c];
    assert(l3.drop_first() =~= seq![b, c]);
    assert(seq![b, c].drop_first() =~= seq![c]);
    assert(seq![c].drop_first() =~= Seq::<Seq<char>>::empty());
    assert(l3[0] == a && seq![b, c][0] == b && seq![c][0] == c);
    assert(push_all_unique(s, l3) == push_all_unique(push_unique_spec(s, a), seq![b, c]));
    assert(push_all_unique(push_unique_spec(s, a), seq![b, c]) == push_all_unique(
        push_unique_spec(push_unique_spec(s, a), b),
        seq![c],
    ));
    assert(push_all_unique(push_unique_spec(push_unique_spec(s, a), b), seq![c])
        == push_all_unique(
        push_unique_spec(push_unique_spec(push_unique_spec(s, a), b), c),
        Seq::<Seq<char>>::empty(),
    ));
}

impl Default for Config {
    /// The out-of-the-box configuration: the cursor agent with no extras.
    fn default() -> (r: Config)
        ensures
            r.cli_program@ == "cursor-agent"@,
            r.tool_type == Option::Some(ToolType::Cursor),
            r.tool_paths@.len() == 0,
            r.cli_args@.len() == 0,
            r.lifecycles@.len() == 0,
            r.gates@.len() == 0,
    {
        Config {
            cli_program: "cursor-agent".to_owned(),
            tool_type: Some(ToolType::Cursor),
            tool_paths: Vec::new(),
            cli_args: Vec::new(),
            lifecycles: Vec::new(),
            gates: Vec::new(),
        }
    }
}

} // verus!
