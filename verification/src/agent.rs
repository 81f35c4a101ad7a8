//! An agent's installer: where the agent keeps its prompt file, its settings
//! and its subagents, and the hook entry that the installer places in its
//! settings.
//!
//! The agent is described by its names (`AgentInstaller`), so that one
//! installer serves every agent laid out this way: a prompt file at the
//! project root, and a configuration directory holding `settings.json` and
//! an `agents/` directory.
use vstd::prelude::*;
use crate::installers::{InstallOpts, opt_view};
use crate::json::{Json, hook_entry_for, is_hook_entry, is_own_entry, lemma_hook_entry_recognised};
use crate::paths::{join, join_path, parent_of, parent_path, result_view};
use crate::text::{concat, decimal, decimal_string, has_prefix};

verus! {

/// Where an install goes: into a project (its root directory), or into the
/// user's home directory.
#[derive(Debug, Clone, PartialEq, Eq)]
pub enum Scope {
    Local(String),
    Global,
}

/// An agent as its installer sees it.
#[derive(Debug, Clone, PartialEq, Eq)]
pub struct AgentInstaller {
    /// The agent's name, also the `--protocol` its hook speaks.
    pub name: String,
    /// The prompt file's name, at the project root and in the
    /// configuration directory.
    pub prompt_file: String,
    /// The configuration directory, relative to the project root or home.
    pub config_dir: String,
    /// The agent's executable, whose presence on `PATH` shows the agent.
    pub binary: String,
}

/// The error when a global path is asked for and there is no home
/// directory.
pub open spec fn no_home_message() -> Seq<char> {
    "could not determine home directory"@
}

/// `rel` under the home directory `home`, or the error when there is none.
pub open spec fn home_path(home: Option<Seq<char>>, rel: Seq<char>) -> Result<Seq<char>, Seq<char>> {
    match home {
        Some(h) => Ok(join_path(h, rel)),
        None => Err(no_home_message()),
    }
}

/// Whether paths in `scope` can be had: always in a project, and globally
/// when there is a home directory.
pub open spec fn scope_resolves(scope: Scope, home: Option<Seq<char>>) -> bool {
    scope is Local || home is Some
}

/// `rel` under the home directory `home` (see `home_path`).
pub fn under_home(home: &Option<String>, rel: &str) -> (r: Result<String, String>)
    ensures
        result_view(r) == home_path(opt_view(*home), rel@),
{
    proof {
        reveal_strlit("could not determine home directory");
    }
    match home {
        Some(h) => Ok(join(h.as_str(), rel)),
        None => Err("could not determine home directory".to_owned()),
    }
}

/// The agent subagents that run in their own context and never read the
/// prompt file; a prompt file of the same name in `agents/` shadows each.
pub open spec fn shadowed_names() -> Seq<Seq<char>> {
    seq!["Explore"@]
}

/// The shadowed subagents (see `shadowed_names`).
pub fn shadowed_subagents() -> (r: Vec<&'static str>)
    ensures
        r@.len() == shadowed_names().len(),
        forall|i: int| 0 <= i < r@.len() ==> r@[i]@ == shadowed_names()[i],
{
    let mut v: Vec<&'static str> = Vec::new();
    v.push("Explore");
    v
}

/// Where in the settings the installer's hook entry lives: the list of
/// `PreToolUse` hooks under `hooks`.
pub open spec fn hook_path_keys() -> Seq<Seq<char>> {
    seq!["hooks"@, "PreToolUse"@]
}

/// The keys that lead to the hook list (see `hook_path_keys`).
pub fn hook_path() -> (r: Vec<&'static str>)
    ensures
        r@.len() == hook_path_keys().len(),
        forall|i: int| 0 <= i < r@.len() ==> r@[i]@ == hook_path_keys()[i],
{
    let mut v: Vec<&'static str> = Vec::new();
    v.push("hooks");
    v.push("PreToolUse");
    v
}

impl AgentInstaller {
    /// `rel` inside the configuration directory.
    pub open spec fn in_config(self, rel: Seq<char>) -> Seq<char> {
        join_path(self.config_dir@, rel)
    }

    /// The prompt file: at the project root, or in the configuration
    /// directory under home.
    pub open spec fn prompt_path_of(self, scope: Scope, home: Option<Seq<char>>) -> Result<
        Seq<char>,
        Seq<char>,
    > {
        match scope {
            Scope::Local(root) => Ok(join_path(root@, self.prompt_file@)),
            Scope::Global => home_path(home, self.in_config(self.prompt_file@)),
        }
    }

    /// The settings file, `settings.json` in the configuration directory
    /// of the project or of home.
    pub open spec fn settings_path_of(self, scope: Scope, home: Option<Seq<char>>) -> Result<
        Seq<char>,
        Seq<char>,
    > {
        match scope {
            Scope::Local(root) => Ok(join_path(root@, self.in_config("settings.json"@))),
            Scope::Global => home_path(home, self.in_config("settings.json"@)),
        }
    }

    /// The file that shadows the subagent `name`: `<name>.md` in the
    /// `agents` directory of the configuration directory.
    pub open spec fn subagent_path_of(self, scope: Scope, home: Option<Seq<char>>, name: Seq<char>) -> Result<
        Seq<char>,
        Seq<char>,
    > {
        match scope {
            Scope::Local(root) => Ok(join_path(join_path(root@, self.in_config("agents"@)), name + ".md"@)),
            Scope::Global => home_path(home, self.in_config("agents/"@ + name + ".md"@)),
        }
    }

    /// The command the hook runs before each read.
    pub open spec fn hook_command_of(self, opts: InstallOpts) -> Seq<char> {
        "ast-outline hook --protocol "@ + self.name@ + " --min-lines "@ + decimal(opts.min_lines as nat) + (
        if opts.always {
            " --always"@
        } else {
            Seq::empty()
        })
    }

    /// The agent's name.
    pub fn name(&self) -> (r: &str)
        ensures
            r@ == self.name@,
    {
        self.name.as_str()
    }

    /// The prompt file (see `prompt_path_of`).
    pub fn prompt_path(&self, scope: &Scope, home: &Option<String>) -> (r: Result<String, String>)
        ensures
            result_view(r) == self.prompt_path_of(*scope, opt_view(*home)),
    {
        match scope {
            Scope::Local(root) => Ok(join(root.as_str(), self.prompt_file.as_str())),
            Scope::Global => {
                let rel = join(self.config_dir.as_str(), self.prompt_file.as_str());
                under_home(home, rel.as_str())
            },
        }
    }

    /// The settings file (see `settings_path_of`).
    pub fn settings_path(&self, scope: &Scope, home: &Option<String>) -> (r: Result<String, String>)
        ensures
            result_view(r) == self.settings_path_of(*scope, opt_view(*home)),
    {
        proof {
            reveal_strlit("settings.json");
        }
        let rel = join(self.config_dir.as_str(), "settings.json");
        match scope {
            Scope::Local(root) => Ok(join(root.as_str(), rel.as_str())),
            Scope::Global => under_home(home, rel.as_str()),
        }
    }

    /// The file that shadows the subagent `name` (see `subagent_path_of`).
    pub fn subagent_path(&self, scope: &Scope, home: &Option<String>, name: &str) -> (r: Result<String, String>)
        ensures
            result_view(r) == self.subagent_path_of(*scope, opt_view(*home), name@),
    {
        proof {
            reveal_strlit(".md");
            reveal_strlit("agents");
            reveal_strlit("agents/");
        }
        let file = concat(name, ".md");
        match scope {
            Scope::Local(root) => {
                let agents = join(self.config_dir.as_str(), "agents");
                let dir = join(root.as_str(), agents.as_str());
                Ok(join(dir.as_str(), file.as_str()))
            },
            Scope::Global => {
                let under = concat("agents/", file.as_str());
                assert(under@ =~= "agents/"@ + name@ + ".md"@);
                let rel = join(self.config_dir.as_str(), under.as_str());
                under_home(home, rel.as_str())
            },
        }
    }

    /// The files that shadow each of the shadowed subagents, in order; the
    /// error when their paths cannot be had.
    pub fn subagent_paths(&self, scope: &Scope, home: &Option<String>) -> (r: Result<Vec<String>, String>)
        ensures
            r is Ok <==> scope_resolves(*scope, opt_view(*home)),
            r matches Err(e) ==> e@ == no_home_message(),
            r matches Ok(v) ==> v@.len() == shadowed_names().len() && forall|i: int|
                0 <= i < v@.len() ==> Ok::<Seq<char>, Seq<char>>(#[trigger] v@[i]@) == self.subagent_path_of(
                    *scope,
                    opt_view(*home),
                    shadowed_names()[i],
                ),
    {
        let names = shadowed_subagents();
        let mut out: Vec<String> = Vec::new();
        let mut i: usize = 0;
        while i < names.len()
            invariant
                i <= names@.len(),
                names@.len() == shadowed_names().len(),
                forall|k: int| 0 <= k < names@.len() ==> names@[k]@ == shadowed_names()[k],
                out@.len() == i,
                forall|k: int|
                    0 <= k < i ==> Ok::<Seq<char>, Seq<char>>(#[trigger] out@[k]@) == self.subagent_path_of(
                        *scope,
                        opt_view(*home),
                        shadowed_names()[k],
                    ),
            decreases names@.len() - i,
        {
            match self.subagent_path(scope, home, names[i]) {
                Ok(p) => out.push(p),
                Err(e) => return Err(e),
            }
            i += 1;
        }
        proof {
            if !scope_resolves(*scope, opt_view(*home)) {
                let k = 0int;
                assert(out@.len() > 0);
                assert(Ok::<Seq<char>, Seq<char>>(out@[k]@) == self.subagent_path_of(*scope, opt_view(*home), shadowed_names()[k]));
            }
        }
        Ok(out)
    }

    /// The directory whose presence shows that the agent is set up: the
    /// prompt file's directory. None when the prompt file's path cannot be
    /// had or has no parent.
    pub fn detect_dir(&self, scope: &Scope, home: &Option<String>) -> (r: Option<String>)
        ensures
            opt_view(r) == match self.prompt_path_of(*scope, opt_view(*home)) {
                Ok(p) => parent_path(p),
                Err(_) => None,
            },
    {
        match self.prompt_path(scope, home) {
            Ok(p) => parent_of(p.as_str()),
            Err(_) => None,
        }
    }

    /// The command the hook runs (see `hook_command_of`).
    pub fn hook_command(&self, opts: &InstallOpts) -> (r: String)
        ensures
            r@ == self.hook_command_of(*opts),
    {
        proof {
            reveal_strlit("ast-outline hook --protocol ");
            reveal_strlit(" --min-lines ");
            reveal_strlit(" --always");
        }
        let head = concat("ast-outline hook --protocol ", self.name.as_str());
        let flag = concat(head.as_str(), " --min-lines ");
        let lines = decimal_string(opts.min_lines);
        let cmd = concat(flag.as_str(), lines.as_str());
        if opts.always {
            concat(cmd.as_str(), " --always")
        } else {
            proof {
                assert(cmd@ + Seq::<char>::empty() =~= cmd@);
            }
            cmd
        }
    }

    /// The settings entry that runs the hook before every read.
    pub fn hook_entry(&self, opts: &InstallOpts) -> (r: Json)
        ensures
            is_hook_entry(r, self.hook_command_of(*opts)),
    {
        hook_entry_for(self.hook_command(opts))
    }
}

/// The entry that an installer writes is recognised as its own by
/// `matches_entry`, with any marker that begins the fixed head of the
/// hook's command, whatever the agent and the options.
pub proof fn lemma_own_hook_entry_recognised(inst: AgentInstaller, opts: InstallOpts, entry: Json, marker: Seq<char>)
    requires
        is_hook_entry(entry, inst.hook_command_of(opts)),
        has_prefix("ast-outline hook --protocol "@, marker),
    ensures
        is_own_entry(entry, marker),
{
    let head = "ast-outline hook --protocol "@;
    let cmd = inst.hook_command_of(opts);
    lemma_hook_entry_recognised(entry, cmd, marker);
    assert(cmd.take(marker.len() as int) =~= head.take(marker.len() as int));
}

/// Whether `s` ends with `t`.
pub open spec fn has_suffix(s: Seq<char>, t: Seq<char>) -> bool {
    t.len() <= s.len() && s.subrange(s.len() - t.len(), s.len() as int) == t
}

proof fn lemma_decimal_ends_in_digit(n: nat)
    ensures
        decimal(n).len() > 0,
        decimal(n).last() != 's',
    decreases n,
{
    if n >= 10 {
        lemma_decimal_ends_in_digit(n / 10);
    }
}

/// The hook's command runs ast-outline's hook for the agent's protocol with
/// the chosen `--min-lines`, and ends with `--always` exactly when the
/// options ask for it, whatever `min_lines` is.
pub proof fn lemma_hook_command_flags(inst: AgentInstaller, opts: InstallOpts)
    ensures
        ({
            let base = "ast-outline hook --protocol "@ + inst.name@ + " --min-lines "@ + decimal(opts.min_lines as nat);
            let cmd = inst.hook_command_of(opts);
            &&& opts.always ==> cmd == base + " --always"@
            &&& !opts.always ==> cmd == base
            &&& has_suffix(cmd, " --always"@) <==> opts.always
        }),
{
    reveal_strlit(" --always");
    let base = "ast-outline hook --protocol "@ + inst.name@ + " --min-lines "@ + decimal(opts.min_lines as nat);
    let cmd = inst.hook_command_of(opts);
    let sfx = " --always"@;
    if opts.always {
        assert(cmd =~= base + sfx);
        assert(cmd.subrange(cmd.len() - sfx.len(), cmd.len() as int) =~= sfx);
    } else {
        assert(cmd =~= base);
        lemma_decimal_ends_in_digit(opts.min_lines as nat);
        let dec = decimal(opts.min_lines as nat);
        assert(cmd.last() == dec.last());
        if has_suffix(cmd, sfx) {
            assert(cmd.subrange(cmd.len() - sfx.len(), cmd.len() as int)[sfx.len() - 1] == cmd.last());
            assert(sfx[sfx.len() - 1] == 's');
        }
    }
}

} // verus!
