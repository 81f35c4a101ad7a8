//! The decisions of the installers that place the agent prompt, hook
//! entries and plain files into an agent's configuration.
//!
//! Each function here takes what was read from disk (and what the
//! marker-block or JSON/TOML merge produced from it) and returns a `Plan`:
//! the change to report, and what to do to the file. Reading and writing
//! the files is left to the caller.
use vstd::prelude::*;
use crate::text::{concat, first_line, first_line_of, has_substring, contains_str, trim_end_char, trim_end_newlines};

verus! {

/// What an installer did, or would do with `dry_run`, to one file.
#[derive(Debug, Clone, PartialEq, Eq)]
pub enum Change {
    Created(String),
    Updated(String),
    Skipped { path: String, reason: String },
    Removed(String),
}

/// What to do to the file on disk to carry out a change.
#[derive(Debug, Clone, PartialEq, Eq)]
pub enum FileAction {
    /// Leave the file as it is.
    Leave,
    /// Replace the file's contents (atomically) with these.
    Write(String),
    /// Delete the file, then its directory if that is left empty.
    Delete,
}

/// A change together with the file action that carries it out.
#[derive(Debug, Clone, PartialEq, Eq)]
pub struct Plan {
    pub change: Change,
    pub action: FileAction,
}

/// Options shared by every install and uninstall.
#[derive(Debug, Clone, Default, PartialEq, Eq)]
pub struct InstallOpts {
    /// Decide and report, but change no file.
    pub dry_run: bool,
    /// Overwrite user edits inside the marker block.
    pub force: bool,
    /// `--min-lines` passed to the installed hook.
    pub min_lines: usize,
    /// Whether the installed hook runs on every read (`--always`).
    pub always: bool,
}

/// What is installed for one agent.
#[derive(Debug, Clone, Default, PartialEq, Eq)]
pub struct Status {
    pub prompt_installed: bool,
    pub hook_installed: bool,
    pub prompt_version: Option<String>,
}

/// How merging the prompt's marker block into a file went.
#[derive(Debug, Clone, PartialEq, Eq)]
pub enum ApplyOutcome {
    /// The block was placed or refreshed (or was already current).
    Applied,
    /// The block holds edits by the user and `force` was not given; the
    /// text is a diff of those edits.
    UserEditsBlocked(String),
}

/// The reason given when a file already holds what would be written.
pub open spec fn up_to_date_reason() -> Seq<char> {
    "already up to date"@
}

/// Whether `a` is `FileAction::Write` of a string with characters `c`
/// (`Leave` when `c` is none).
pub open spec fn action_writes(a: FileAction, c: Option<Seq<char>>) -> bool {
    match c {
        None => a == FileAction::Leave,
        Some(c) => a matches FileAction::Write(w) && w@ == c,
    }
}

/// Whether `ch` is `Change::Skipped` for `path` as "already up to date".
pub open spec fn is_skip(ch: Change, path: Seq<char>) -> bool {
    ch matches Change::Skipped { path: p, reason } && p@ == path && reason@ == up_to_date_reason()
}

/// Whether `ch` is `Created(path)` (when `created`) or `Updated(path)`.
pub open spec fn is_created_or_updated(ch: Change, path: Seq<char>, created: bool) -> bool {
    if created {
        ch matches Change::Created(p) && p@ == path
    } else {
        ch matches Change::Updated(p) && p@ == path
    }
}

/// Whether `ch` is `Removed(path)`.
pub open spec fn is_removed(ch: Change, path: Seq<char>) -> bool {
    ch matches Change::Removed(p) && p@ == path
}

fn skipped(path: &str) -> (r: Change)
    ensures
        is_skip(r, path@),
{
    proof {
        reveal_strlit("already up to date");
    }
    Change::Skipped { path: path.to_owned(), reason: "already up to date".to_owned() }
}

fn write_action(dry_run: bool, contents: String) -> (r: FileAction)
    ensures
        action_writes(r, if dry_run { None } else { Some(contents@) }),
{
    if dry_run {
        FileAction::Leave
    } else {
        FileAction::Write(contents)
    }
}

/// The prompt snippet as it is placed in a file: without its trailing
/// newlines, then exactly one newline.
pub fn prompt_body(snippet: &str) -> (r: String)
    ensures
        r@ == trim_end_char(snippet@, '\n') + seq!['\n'],
{
    let trimmed = trim_end_newlines(snippet);
    proof {
        reveal_strlit("\n");
    }
    concat(trimmed.as_str(), "\n")
}

/// The message when the user's edits inside the marker block stop an
/// install.
pub open spec fn user_edits_message(path: Seq<char>, diff: Seq<char>) -> Seq<char> {
    path + ": user edits inside marker block; pass --force to overwrite\n"@ + diff
}

/// What installing the agent prompt decides (see `install_prompt_in`):
/// blocked user edits are an error; contents that the merge leaves as they
/// are give `Skipped`; otherwise the merged contents are written (unless
/// `dry_run`), reported as `Created` when the file was empty and `Updated`
/// otherwise.
pub open spec fn prompt_install_result(
    path: Seq<char>,
    existing: Seq<char>,
    merged: Seq<char>,
    outcome: ApplyOutcome,
    dry_run: bool,
    r: Result<Plan, String>,
) -> bool {
    match outcome {
        ApplyOutcome::UserEditsBlocked(diff) => r matches Err(e) && e@ == user_edits_message(path, diff@),
        ApplyOutcome::Applied => if existing == merged {
            r matches Ok(p) && is_skip(p.change, path) && p.action == FileAction::Leave
        } else {
            r matches Ok(p) && is_created_or_updated(p.change, path, existing.len() == 0) && action_writes(
                p.action,
                if dry_run { None } else { Some(merged) },
            )
        },
    }
}

/// Installs the agent prompt into the file at `path`, whose contents are
/// `existing` (empty when there is no file), given what merging the
/// prompt's marker block into them gave: `merged` and `outcome` (see
/// `prompt_install_result`).
pub fn install_prompt_in(
    path: &str,
    existing: &str,
    merged: String,
    outcome: ApplyOutcome,
    opts: &InstallOpts,
) -> (r: Result<Plan, String>)
    ensures
        prompt_install_result(path@, existing@, merged@, outcome, opts.dry_run, r),
{
    match outcome {
        ApplyOutcome::UserEditsBlocked(diff) => {
            proof {
                reveal_strlit(": user edits inside marker block; pass --force to overwrite\n");
            }
            let head = concat(path, ": user edits inside marker block; pass --force to overwrite\n");
            Err(concat(head.as_str(), diff.as_str()))
        },
        ApplyOutcome::Applied => {
            let same = existing.to_owned() == merged;
            if same {
                return Ok(Plan { change: skipped(path), action: FileAction::Leave });
            }
            let change = if existing.is_empty() {
                Change::Created(path.to_owned())
            } else {
                Change::Updated(path.to_owned())
            };
            Ok(Plan { change, action: write_action(opts.dry_run, merged) })
        },
    }
}

/// One prompt file to install into: its path, its contents (empty when
/// there is no file), and what merging the prompt's marker block into them
/// gave.
pub struct PromptInstall {
    pub path: String,
    pub existing: String,
    pub merged: String,
    pub outcome: ApplyOutcome,
}

/// Whether the prompt install `p` is blocked by the user's edits.
pub open spec fn blocked(p: PromptInstall) -> bool {
    p.outcome is UserEditsBlocked
}

/// Installs the prompt into several files in turn (the shadowed subagents'
/// files): the plans of the files up to the first one whose install the
/// user's edits block, in order, and that install's error, if any. The
/// plans are carried out in turn before the error is reported, so the files
/// before a blocked one are written.
pub fn install_prompts_in(installs: Vec<PromptInstall>, opts: &InstallOpts) -> (r: (Vec<Plan>, Option<String>))
    ensures
        r.1 is None <==> forall|i: int| 0 <= i < installs@.len() ==> !blocked(#[trigger] installs@[i]),
        r.1 is None ==> r.0@.len() == installs@.len(),
        r.0@.len() <= installs@.len(),
        forall|i: int| 0 <= i < r.0@.len() ==> !blocked(#[trigger] installs@[i]),
        forall|i: int|
            0 <= i < r.0@.len() ==> prompt_install_result(
                installs@[i].path@,
                installs@[i].existing@,
                installs@[i].merged@,
                installs@[i].outcome,
                opts.dry_run,
                Ok(#[trigger] r.0@[i]),
            ),
        r.1 matches Some(e) ==> r.0@.len() < installs@.len() && blocked(installs@[r.0@.len() as int])
            && prompt_install_result(
            installs@[r.0@.len() as int].path@,
            installs@[r.0@.len() as int].existing@,
            installs@[r.0@.len() as int].merged@,
            installs@[r.0@.len() as int].outcome,
            opts.dry_run,
            Err(e),
        ),
{
    let ghost all = installs@;
    let mut plans: Vec<Plan> = Vec::new();
    let mut rest = installs;
    let ghost mut i: int = 0;
    while rest.len() > 0
        invariant
            all == installs@,
            0 <= i,
            i + rest@.len() == all.len(),
            rest@ == all.skip(i),
            plans@.len() == i,
            forall|j: int| 0 <= j < i ==> !blocked(#[trigger] all[j]),
            forall|j: int|
                0 <= j < i ==> prompt_install_result(
                    all[j].path@,
                    all[j].existing@,
                    all[j].merged@,
                    all[j].outcome,
                    opts.dry_run,
                    Ok(#[trigger] plans@[j]),
                ),
        decreases rest@.len(),
    {
        let next = rest.remove(0);
        assert(next == all[i]);
        assert(rest@ =~= all.skip(i + 1));
        let ghost outcome_blocked = next.outcome is UserEditsBlocked;
        let res = install_prompt_in(next.path.as_str(), next.existing.as_str(), next.merged, next.outcome, opts);
        match res {
            Ok(p) => {
                proof {
                    if outcome_blocked {
                        assert(false);
                    }
                }
                plans.push(p);
            },
            Err(e) => {
                proof {
                    assert(blocked(installs@[i]));
                }
                return (plans, Some(e));
            },
        }
        proof {
            i = i + 1;
        }
    }
    (plans, None)
}

/// The plans that an uninstall carries out, in order: the prompt file's,
/// the settings file's, then each shadowed subagent file's, leaving out the
/// files with nothing to do.
pub fn uninstall_plans(prompt: Option<Plan>, hook: Option<Plan>, subagents: Vec<Option<Plan>>) -> (r: Vec<Plan>)
    ensures
        r@ == somes(seq![prompt, hook] + subagents@),
{
    let ghost all = seq![prompt, hook] + subagents@;
    let mut out: Vec<Plan> = Vec::new();
    let mut rest = subagents;
    rest.insert(0, hook);
    rest.insert(0, prompt);
    assert(rest@ =~= all);
    let ghost mut i: int = 0;
    assert(all.take(0) =~= Seq::<Option<Plan>>::empty());
    while rest.len() > 0
        invariant
            0 <= i,
            i + rest@.len() == all.len(),
            rest@ == all.skip(i),
            out@ == somes(all.take(i)),
        decreases rest@.len(),
    {
        let next = rest.remove(0);
        assert(next == all[i]);
        assert(rest@ =~= all.skip(i + 1));
        assert(all.take(i + 1).drop_last() =~= all.take(i));
        match next {
            Some(p) => out.push(p),
            None => {},
        }
        proof {
            i = i + 1;
        }
    }
    assert(all.take(all.len() as int) =~= all);
    out
}

/// The plans among `ps`, in order.
pub open spec fn somes(ps: Seq<Option<Plan>>) -> Seq<Plan>
    decreases ps.len(),
{
    if ps.len() == 0 {
        Seq::empty()
    } else {
        match ps.last() {
            Some(p) => somes(ps.drop_last()).push(p),
            None => somes(ps.drop_last()),
        }
    }
}

/// What removing the agent prompt decides (see `uninstall_prompt_in`).
pub open spec fn prompt_uninstall_result(
    path: Seq<char>,
    stripped: Option<(String, bool)>,
    dry_run: bool,
    r: Option<Plan>,
) -> bool {
    match stripped {
        None => r is None,
        Some((out, removed)) => if removed {
            r matches Some(p) && is_removed(p.change, path) && action_writes(
                p.action,
                if dry_run { None } else { Some(out@) },
            )
        } else {
            r is None
        },
    }
}

/// Removes the agent prompt's marker block from the file at `path`, given
/// what removing it from the file's contents gave (`None` when there is no
/// file): the remaining text, and whether a block was there.
///
/// Without a file or a block there is nothing to do (`None`); otherwise the
/// remaining text is written (unless `dry_run`) and `Removed` reported.
pub fn uninstall_prompt_in(path: &str, stripped: Option<(String, bool)>, opts: &InstallOpts) -> (r: Option<Plan>)
    ensures
        prompt_uninstall_result(path@, stripped, opts.dry_run, r),
{
    match stripped {
        None => None,
        Some((out, removed)) => {
            if !removed {
                return None;
            }
            Some(Plan { change: Change::Removed(path.to_owned()), action: write_action(opts.dry_run, out) })
        },
    }
}

/// What installing a plain file decides: a file that already holds
/// `contents` is skipped; otherwise `contents` is written (unless
/// `dry_run`), as an update when a file was there and a creation when not.
pub open spec fn plain_install_plan(
    path: Seq<char>,
    contents: Seq<char>,
    existing: Option<Seq<char>>,
    dry_run: bool,
    r: Plan,
) -> bool {
    if existing == Some(contents) {
        is_skip(r.change, path) && r.action == FileAction::Leave
    } else {
        is_created_or_updated(r.change, path, existing is None) && action_writes(
            r.action,
            if dry_run { None } else { Some(contents) },
        )
    }
}

/// The characters of an optional string.
pub open spec fn opt_view(o: Option<String>) -> Option<Seq<char>> {
    match o {
        Some(s) => Some(s@),
        None => None,
    }
}

/// Installs a file that the installer owns whole, comparing byte for byte:
/// a file that already holds `contents` is `Skipped`; otherwise `contents`
/// is written (unless `dry_run`), `Updated` when a file was there and
/// `Created` when not.
pub fn install_plain_file_in(path: &str, contents: &str, existing: Option<String>, opts: &InstallOpts) -> (r: Plan)
    ensures
        plain_install_plan(path@, contents@, opt_view(existing), opts.dry_run, r),
{
    let unchanged = match &existing {
        Some(e) => *e == contents.to_owned(),
        None => false,
    };
    if unchanged {
        return Plan { change: skipped(path), action: FileAction::Leave };
    }
    let change = if existing.is_some() {
        Change::Updated(path.to_owned())
    } else {
        Change::Created(path.to_owned())
    };
    Plan { change, action: write_action(opts.dry_run, contents.to_owned()) }
}

/// Whether a file whose contents are `existing` is still the one the
/// installer wrote: its first line holds `marker`.
pub open spec fn still_ours(existing: Seq<char>, marker: Seq<char>) -> bool {
    has_substring(first_line(existing), marker)
}

/// What removing a plain file decides: nothing without a file, or when
/// the file is no longer the installer's (see `still_ours`); otherwise the
/// file is deleted (left alone when `dry_run`) and `Removed` reported.
pub open spec fn plain_uninstall_plan(
    path: Seq<char>,
    marker: Seq<char>,
    existing: Option<Seq<char>>,
    dry_run: bool,
    r: Option<Plan>,
) -> bool {
    match existing {
        None => r is None,
        Some(e) => if still_ours(e, marker) {
            r matches Some(p) && is_removed(p.change, path) && p.action == (if dry_run {
                FileAction::Leave
            } else {
                FileAction::Delete
            })
        } else {
            r is None
        },
    }
}

/// Removes a file that the installer wrote, but only if its first line
/// still holds `expected_marker`, so that a file the user replaced with
/// their own is kept. `existing` is the file's contents (`None` when there
/// is no file). The file is deleted (unless `dry_run`), then its directory
/// if that is left empty.
pub fn uninstall_plain_file_in(
    path: &str,
    expected_marker: &str,
    existing: Option<String>,
    opts: &InstallOpts,
) -> (r: Option<Plan>)
    ensures
        plain_uninstall_plan(path@, expected_marker@, opt_view(existing), opts.dry_run, r),
{
    let e = match &existing {
        Some(e) => e,
        None => return None,
    };
    let line = first_line_of(e.as_str());
    if !contains_str(line.as_str(), expected_marker) {
        return None;
    }
    let action = if opts.dry_run { FileAction::Leave } else { FileAction::Delete };
    Some(Plan { change: Change::Removed(path.to_owned()), action })
}

/// The status when only the prompt is looked at: `installed_version` is
/// the version recorded in the prompt file's marker block (none when there
/// is no readable prompt file or no block in it).
pub fn status_for_prompt_only(installed_version: Option<String>) -> (r: Status)
    ensures
        r.prompt_version == installed_version,
        r.prompt_installed == installed_version is Some,
        !r.hook_installed,
{
    let installed = installed_version.is_some();
    Status { prompt_installed: installed, hook_installed: false, prompt_version: installed_version }
}

/// The status of prompt and hook: `installed_version` as for
/// `status_for_prompt_only`, and whether the settings file holds the
/// installer's hook entry.
pub fn status_for(installed_version: Option<String>, hook_installed: bool) -> (r: Status)
    ensures
        r.prompt_version == installed_version,
        r.prompt_installed == installed_version is Some,
        r.hook_installed == hook_installed,
{
    let mut s = status_for_prompt_only(installed_version);
    s.hook_installed = hook_installed;
    s
}

/// Installing a plain file twice changes nothing the second time: when the
/// first install writes contents, an install over the file that holds them
/// is skipped and leaves the file alone.
pub proof fn lemma_plain_install_idempotent(
    path: Seq<char>,
    contents: Seq<char>,
    existing: Option<Seq<char>>,
    dry_run: bool,
    first: Plan,
    second: Plan,
    written: String,
)
    requires
        plain_install_plan(path, contents, existing, dry_run, first),
        first.action == FileAction::Write(written),
        plain_install_plan(path, contents, Some(written@), dry_run, second),
    ensures
        is_skip(second.change, path),
        second.action == FileAction::Leave,
{
}

/// Removing a plain file undoes installing it: once an install has
/// written contents whose first line holds the marker, removing the file
/// deletes it (or, with `dry_run`, reports the removal and leaves it).
pub proof fn lemma_plain_uninstall_undoes_install(
    path: Seq<char>,
    contents: Seq<char>,
    marker: Seq<char>,
    existing: Option<Seq<char>>,
    install: Plan,
    written: String,
    dry_run: bool,
    removal: Option<Plan>,
)
    requires
        plain_install_plan(path, contents, existing, false, install),
        install.action == FileAction::Write(written),
        has_substring(first_line(contents), marker),
        plain_uninstall_plan(path, marker, Some(written@), dry_run, removal),
    ensures
        removal matches Some(p) && is_removed(p.change, path),
        removal matches Some(p) && p.action == (if dry_run { FileAction::Leave } else { FileAction::Delete }),
{
}

/// Installing the prompt again over what an install wrote is skipped and
/// leaves the file, whenever merging the block into that text gives the
/// text back unchanged (what the marker-block merge does with a text that
/// already holds the current block).
pub proof fn lemma_prompt_reinstall_skips(
    path: Seq<char>,
    existing: Seq<char>,
    merged: Seq<char>,
    first: Result<Plan, String>,
    written: String,
    dry_run: bool,
    second: Result<Plan, String>,
)
    requires
        prompt_install_result(path, existing, merged, ApplyOutcome::Applied, false, first),
        first matches Ok(p) && p.action == FileAction::Write(written),
        prompt_install_result(path, written@, written@, ApplyOutcome::Applied, dry_run, second),
    ensures
        second matches Ok(p) && is_skip(p.change, path) && p.action == FileAction::Leave,
{
}

/// Uninstalling the prompt again after an uninstall wrote the remaining
/// text does nothing, whenever removing the block from that text finds no
/// block (what the marker-block removal does with its own output).
pub proof fn lemma_prompt_reuninstall_noop(
    path: Seq<char>,
    stripped: Option<(String, bool)>,
    first: Option<Plan>,
    written: String,
    dry_run: bool,
    second: Option<Plan>,
)
    requires
        prompt_uninstall_result(path, stripped, false, first),
        first matches Some(p) && p.action == FileAction::Write(written),
        prompt_uninstall_result(path, Some((written, false)), dry_run, second),
    ensures
        second is None,
{
}

} // verus!
