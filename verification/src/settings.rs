//! Settings files in JSON (through serde_json) and TOML (through
//! toml_edit): reading them for a merge, and deciding what to write back.
//!
//! Parsing and printing are the outside crates' work; the merges themselves
//! (adding or removing the installer's entry) are made by the caller
//! between `load_*` and the matching `*_plan` function.
use vstd::prelude::*;
use crate::installers::{Change, FileAction, InstallOpts, Plan, Status, status_for, action_writes, is_created_or_updated, is_removed, is_skip, opt_view};
use crate::text::{concat, trim, trim_ws};

verus! {

#[verifier::external_type_specification]
#[verifier::external_body]
pub struct ExJsonValue(serde_json::Value);

#[verifier::external_type_specification]
#[verifier::external_body]
pub struct ExTomlDocument(toml_edit::DocumentMut);

/// Why `serde_json::from_str::<Value>` rejects `text`, as its error
/// prints; none when `text` parses.
pub uninterp spec fn json_parse_failure(text: Seq<char>) -> Option<Seq<char>>;

/// Why `text.parse::<toml_edit::DocumentMut>()` rejects `text`, as its
/// error prints; none when `text` parses.
pub uninterp spec fn toml_parse_failure(text: Seq<char>) -> Option<Seq<char>>;

/// The value that `serde_json::from_str::<Value>` parses `text` to, when
/// it parses.
pub uninterp spec fn json_parsed(text: Seq<char>) -> serde_json::Value;

/// The text that `serde_json::to_string_pretty` prints a value as.
pub uninterp spec fn json_pretty_text(v: serde_json::Value) -> Seq<char>;

/// The text that a `toml_edit::DocumentMut` prints as (`Display`).
pub uninterp spec fn toml_printed(d: toml_edit::DocumentMut) -> Seq<char>;

/// The text that the document parsed from `text` prints as: `Display`
/// writes the tables in the order of their place in the source, so this
/// depends on the text alone.
pub uninterp spec fn toml_reprinted(text: Seq<char>) -> Seq<char>;

/// Calls `serde_json::from_str::<serde_json::Value>`. Claimed: it fails
/// exactly when `json_parse_failure` names a failure, and then its error
/// prints as that text; otherwise it returns `json_parsed(text)`, a value
/// that depends on the text alone.
#[verifier::external_body]
fn parse_json_value(text: &str) -> (r: Result<serde_json::Value, String>)
    ensures
        r is Ok <==> json_parse_failure(text@) is None,
        r matches Err(m) ==> json_parse_failure(text@) == Some(m@),
        r matches Ok(v) ==> v == json_parsed(text@),
{
    match serde_json::from_str::<serde_json::Value>(text) {
        Ok(v) => Ok(v),
        Err(e) => Err(e.to_string()),
    }
}

/// Calls `serde_json::to_string_pretty` on a value. Claimed: the text is
/// `json_pretty_text(v)`, which depends on the value alone. (Printing a
/// `Value` cannot fail: its object keys are strings.)
#[verifier::external_body]
fn pretty_json(v: &serde_json::Value) -> (r: String)
    ensures
        r@ == json_pretty_text(*v),
{
    match serde_json::to_string_pretty(v) {
        Ok(s) => s,
        Err(e) => e.to_string(),
    }
}

/// Calls `str::parse::<toml_edit::DocumentMut>`. Claimed: it fails exactly
/// when `toml_parse_failure` names a failure, and then its error prints as
/// that text; otherwise the document prints as `toml_reprinted(text)`.
/// Nothing more is claimed of the document: its tables carry hash maps
/// seeded afresh in each process, so it is not itself a function of the
/// text alone.
#[verifier::external_body]
fn parse_toml_document(text: &str) -> (r: Result<toml_edit::DocumentMut, String>)
    ensures
        r is Ok <==> toml_parse_failure(text@) is None,
        r matches Err(m) ==> toml_parse_failure(text@) == Some(m@),
        r matches Ok(d) ==> toml_printed(d) == toml_reprinted(text@),
{
    match text.parse::<toml_edit::DocumentMut>() {
        Ok(d) => Ok(d),
        Err(e) => Err(e.to_string()),
    }
}

/// Calls `Display` on a `toml_edit::DocumentMut` (`to_string`). Claimed:
/// the text is `toml_printed(d)`, which depends on the document alone.
#[verifier::external_body]
fn print_toml(d: &toml_edit::DocumentMut) -> (r: String)
    ensures
        r@ == toml_printed(*d),
{
    d.to_string()
}

/// The text a settings file is read as: its contents, or `dflt` when there
/// is no file.
pub open spec fn text_or(existing: Option<Seq<char>>, dflt: Seq<char>) -> Seq<char> {
    match existing {
        Some(e) => e,
        None => dflt,
    }
}

/// The message when the settings file at `path` does not parse.
pub open spec fn parse_message(path: Seq<char>, why: Seq<char>) -> Seq<char> {
    "parse "@ + path + ": "@ + why
}

fn parse_error(path: &str, why: String) -> (r: String)
    ensures
        r@ == parse_message(path@, why@),
{
    proof {
        reveal_strlit("parse ");
        reveal_strlit(": ");
    }
    let a = concat("parse ", path);
    let b = concat(a.as_str(), ": ");
    concat(b.as_str(), why.as_str())
}

/// Reads the JSON settings file at `path`, whose contents are `existing`
/// (`None` when there is no file, read as `{}`): the text read and the
/// value it parses to, or the parse error.
pub fn load_json_settings(path: &str, existing: Option<String>) -> (r: Result<(String, serde_json::Value), String>)
    ensures
        ({
            let text = text_or(opt_view(existing), "{}"@);
            &&& r is Ok <==> json_parse_failure(text) is None
            &&& r matches Ok((t, v)) ==> t@ == text && v == json_parsed(text)
            &&& r matches Err(m) ==> m@ == parse_message(path@, json_parse_failure(text)->0)
        }),
{
    proof {
        reveal_strlit("{}");
    }
    let text = match existing {
        Some(e) => e,
        None => "{}".to_owned(),
    };
    match parse_json_value(text.as_str()) {
        Ok(v) => Ok((text, v)),
        Err(why) => Err(parse_error(path, why)),
    }
}

/// Reads the TOML file at `path`, whose contents are `existing` (`None`
/// when there is no file, read as empty): the text read and the document
/// it parses to, or the parse error.
pub fn load_toml_document(path: &str, existing: Option<String>) -> (r: Result<(String, toml_edit::DocumentMut), String>)
    ensures
        ({
            let text = text_or(opt_view(existing), Seq::empty());
            &&& r is Ok <==> toml_parse_failure(text) is None
            &&& r matches Ok((t, d)) ==> t@ == text && toml_printed(d) == toml_reprinted(text)
            &&& r matches Err(m) ==> m@ == parse_message(path@, toml_parse_failure(text)->0)
        }),
{
    let text = match existing {
        Some(e) => e,
        None => String::new(),
    };
    match parse_toml_document(text.as_str()) {
        Ok(d) => Ok((text, d)),
        Err(why) => Err(parse_error(path, why)),
    }
}

/// Reads the JSON settings file at `path` for an uninstall: nothing to do
/// (`None`) when there is no file; otherwise its text and the value it
/// parses to, or the parse error.
pub fn load_json_for_removal(path: &str, existing: Option<String>) -> (r: Result<
    Option<(String, serde_json::Value)>,
    String,
>)
    ensures
        existing is None ==> r == Ok::<Option<(String, serde_json::Value)>, String>(None),
        existing matches Some(t) ==> {
            &&& r is Ok <==> json_parse_failure(t@) is None
            &&& r matches Ok(o) ==> (o matches Some((u, v)) && u@ == t@ && v == json_parsed(t@))
            &&& r matches Err(m) ==> m@ == parse_message(path@, json_parse_failure(t@)->0)
        },
{
    match existing {
        None => Ok(None),
        Some(t) => match load_json_settings(path, Some(t)) {
            Ok(loaded) => Ok(Some(loaded)),
            Err(e) => Err(e),
        },
    }
}

/// Reads the TOML file at `path` for an uninstall: nothing to do (`None`)
/// when there is no file; otherwise its text and the document it parses
/// to, or the parse error.
pub fn load_toml_for_removal(path: &str, existing: Option<String>) -> (r: Result<
    Option<(String, toml_edit::DocumentMut)>,
    String,
>)
    ensures
        existing is None ==> r matches Ok(None),
        existing matches Some(t) ==> {
            &&& r is Ok <==> toml_parse_failure(t@) is None
            &&& r matches Ok(o) ==> (o matches Some((u, d)) && u@ == t@ && toml_printed(d) == toml_reprinted(t@))
            &&& r matches Err(m) ==> m@ == parse_message(path@, toml_parse_failure(t@)->0)
        },
{
    match existing {
        None => Ok(None),
        Some(t) => match load_toml_document(path, Some(t)) {
            Ok(loaded) => Ok(Some(loaded)),
            Err(e) => Err(e),
        },
    }
}

/// Whether a JSON settings text counts as empty: nothing, or `{}` with only
/// white space around it.
pub open spec fn blank_json(text: Seq<char>) -> bool {
    trim_ws(text) == "{}"@ || text.len() == 0
}

/// After the installer's entry was merged into the JSON settings read as
/// `existing` (`modified` tells whether the merge changed anything, `root`
/// is the merged value): skip when nothing changed; otherwise write the
/// merged value pretty-printed with a final newline (unless `dry_run`),
/// reported as `Created` when the file was blank and `Updated` otherwise.
pub fn json_install_plan(path: &str, existing: &str, modified: bool, root: &serde_json::Value, opts: &InstallOpts) -> (r: Plan)
    ensures
        !modified ==> is_skip(r.change, path@) && r.action == FileAction::Leave,
        modified ==> is_created_or_updated(r.change, path@, blank_json(existing@)) && action_writes(
            r.action,
            if opts.dry_run { None } else { Some(json_pretty_text(*root) + "\n"@) },
        ),
{
    proof {
        reveal_strlit("{}");
        reveal_strlit("\n");
        reveal_strlit("already up to date");
    }
    if !modified {
        return Plan {
            change: Change::Skipped { path: path.to_owned(), reason: "already up to date".to_owned() },
            action: FileAction::Leave,
        };
    }
    let action = if opts.dry_run {
        FileAction::Leave
    } else {
        let printed = pretty_json(root);
        FileAction::Write(concat(printed.as_str(), "\n"))
    };
    let blank = trim(existing) == "{}".to_owned() || existing.is_empty();
    let change = if blank {
        Change::Created(path.to_owned())
    } else {
        Change::Updated(path.to_owned())
    };
    Plan { change, action }
}

/// After the installer's entry was taken out of the JSON settings
/// (`removed` tells whether there was one, `root` is what remains): nothing
/// to do without an entry; otherwise write the rest pretty-printed with a
/// final newline (unless `dry_run`) and report `Removed`.
pub fn json_uninstall_plan(path: &str, removed: bool, root: &serde_json::Value, opts: &InstallOpts) -> (r: Option<Plan>)
    ensures
        !removed ==> r is None,
        removed ==> (r matches Some(p) && is_removed(p.change, path@) && action_writes(
            p.action,
            if opts.dry_run { None } else { Some(json_pretty_text(*root) + "\n"@) },
        )),
{
    proof {
        reveal_strlit("\n");
    }
    if !removed {
        return None;
    }
    let action = if opts.dry_run {
        FileAction::Leave
    } else {
        let printed = pretty_json(root);
        FileAction::Write(concat(printed.as_str(), "\n"))
    };
    Some(Plan { change: Change::Removed(path.to_owned()), action })
}

/// After the installer's table was merged into the TOML document read as
/// `existing`: skip when nothing changed; otherwise write the printed
/// document (unless `dry_run`), reported as `Created` when the file was
/// empty and `Updated` otherwise.
pub fn toml_install_plan(path: &str, existing: &str, modified: bool, doc: &toml_edit::DocumentMut, opts: &InstallOpts) -> (r: Plan)
    ensures
        !modified ==> is_skip(r.change, path@) && r.action == FileAction::Leave,
        modified ==> is_created_or_updated(r.change, path@, existing@.len() == 0) && action_writes(
            r.action,
            if opts.dry_run { None } else { Some(toml_printed(*doc)) },
        ),
{
    proof {
        reveal_strlit("already up to date");
    }
    if !modified {
        return Plan {
            change: Change::Skipped { path: path.to_owned(), reason: "already up to date".to_owned() },
            action: FileAction::Leave,
        };
    }
    let action = if opts.dry_run {
        FileAction::Leave
    } else {
        FileAction::Write(print_toml(doc))
    };
    let change = if existing.is_empty() {
        Change::Created(path.to_owned())
    } else {
        Change::Updated(path.to_owned())
    };
    Plan { change, action }
}

/// After the installer's table was taken out of the TOML document: nothing
/// to do without one; otherwise write the printed rest (unless `dry_run`)
/// and report `Removed`.
pub fn toml_uninstall_plan(path: &str, removed: bool, doc: &toml_edit::DocumentMut, opts: &InstallOpts) -> (r: Option<Plan>)
    ensures
        !removed ==> r is None,
        removed ==> (r matches Some(p) && is_removed(p.change, path@) && action_writes(
            p.action,
            if opts.dry_run { None } else { Some(toml_printed(*doc)) },
        )),
{
    if !removed {
        return None;
    }
    let action = if opts.dry_run {
        FileAction::Leave
    } else {
        FileAction::Write(print_toml(doc))
    };
    Some(Plan { change: Change::Removed(path.to_owned()), action })
}

/// The parsed settings that a status report looks into: none when there
/// is no settings file (`settings` is none) or its text does not parse.
pub fn settings_for_status(settings: Option<String>) -> (r: Option<serde_json::Value>)
    ensures
        r is Some <==> (opt_view(settings) matches Some(t) && json_parse_failure(t) is None),
        r matches Some(v) ==> (settings matches Some(t) && v == json_parsed(t@)),
{
    match settings {
        None => None,
        Some(t) => match parse_json_value(t.as_str()) {
            Ok(v) => Some(v),
            Err(_) => None,
        },
    }
}

/// The status of prompt and hook: `installed_version` is the version
/// recorded in the prompt file's marker block (none when there is no
/// readable prompt file or no block in it), `settings` the settings file's
/// text (none when there is no readable file), and `hook_installed` tells
/// whether parsed settings hold the installer's entry. The hook counts as
/// installed exactly when the settings parse and `hook_installed` finds the
/// entry in them.
pub fn status_with<F>(installed_version: Option<String>, settings: Option<String>, hook_installed: F) -> (r: Status)
    where
        F: Fn(&serde_json::Value) -> bool,
    requires
        forall|v: serde_json::Value| #[trigger] hook_installed.requires((&v,)),
    ensures
        r.prompt_version == installed_version,
        r.prompt_installed == installed_version is Some,
        r.hook_installed ==> (settings matches Some(t) && json_parse_failure(t@) is None),
        settings matches Some(t) ==> (json_parse_failure(t@) is None ==> hook_installed.ensures(
            (&json_parsed(t@),),
            r.hook_installed,
        )),
{
    let hook = match settings_for_status(settings) {
        Some(root) => hook_installed(&root),
        None => false,
    };
    status_for(installed_version, hook)
}

} // verus!
