//! The bridge to the Composer CLI: dependency resolution with `--no-install`
//! (Composer never touches vendor/) and script events. Processes are run by a
//! `Runner`, so the bridge works without Composer installed.
use vstd::prelude::*;
use crate::json::{json_document, Json};
use crate::lockfile::{composer_json_ok, fget, lookup_last, opt_list_view, parse_json};
use crate::strmap::lookup;
use crate::text::string_of;

verus! {

broadcast use vstd::string::group_string_axioms;

#[derive(Debug)]
pub enum BridgeError {
    Spawn { program: String, source: std::io::Error },
    Failed { program: String, args: Vec<String>, stderr: String },
    Io(std::io::Error),
}

/// Runs a program with arguments in a working directory.
pub trait Runner {
    fn run(&self, program: &str, args: &Vec<String>, cwd: &str) -> Result<(), BridgeError>;
}

pub open spec fn strs(v: Seq<String>) -> Seq<Seq<char>> {
    v.map_values(|s: String| s@)
}

/// `composer update --no-install --no-interaction`.
pub open spec fn spec_update_args() -> Seq<Seq<char>> {
    seq!["update"@, "--no-install"@, "--no-interaction"@]
}

/// `composer <verb> --no-install --no-interaction <packages...>`.
pub open spec fn spec_change_args(verb: Seq<char>, packages: Seq<Seq<char>>) -> Seq<Seq<char>> {
    seq![verb, "--no-install"@, "--no-interaction"@] + packages
}

/// `composer run-script --no-interaction <event>`.
pub open spec fn spec_script_args(event: Seq<char>) -> Seq<Seq<char>> {
    seq!["run-script"@, "--no-interaction"@, event]
}

/// The arguments of `composer update`.
pub fn update_args() -> (r: Vec<String>)
    ensures
        strs(r@) == spec_update_args(),
{
    let mut a: Vec<String> = Vec::new();
    a.push("update".to_string());
    a.push("--no-install".to_string());
    a.push("--no-interaction".to_string());
    assert(strs(a@) =~= spec_update_args());
    a
}

/// The arguments of `composer require` / `composer remove` for `packages`.
pub fn change_args(verb: &str, packages: &Vec<String>) -> (r: Vec<String>)
    ensures
        strs(r@) == spec_change_args(verb@, strs(packages@)),
{
    let mut a: Vec<String> = Vec::new();
    a.push(verb.to_string());
    a.push("--no-install".to_string());
    a.push("--no-interaction".to_string());
    let ghost head = strs(a@);
    let mut i: usize = 0;
    while i < packages.len()
        invariant
            i <= packages@.len(),
            strs(a@) == head + strs(packages@).take(i as int),
        decreases packages@.len() - i,
    {
        let ghost before = a@;
        let p = packages[i].clone();
        a.push(p);
        assert(a@ == before.push(p));
        assert(strs(a@) =~= strs(before).push(packages@[i as int]@));
        assert(strs(packages@).take(i + 1) =~= strs(packages@).take(i as int).push(packages@[i as int]@));
        i = i + 1;
    }
    assert(strs(packages@).take(packages@.len() as int) =~= strs(packages@));
    assert(head =~= seq![verb@, "--no-install"@, "--no-interaction"@]);
    a
}

/// The arguments of `composer run-script` for `event`.
pub fn script_args(event: &str) -> (r: Vec<String>)
    ensures
        strs(r@) == spec_script_args(event@),
{
    let mut a: Vec<String> = Vec::new();
    a.push("run-script".to_string());
    a.push("--no-interaction".to_string());
    a.push(event.to_string());
    assert(strs(a@) =~= spec_script_args(event@));
    a
}

/// `r` is an outcome of the runner running `composer` with arguments `args`
/// in `cwd`.
pub open spec fn composer_ran<R: Runner>(
    runner: &R,
    args: Seq<Seq<char>>,
    cwd: &str,
    r: Result<(), BridgeError>,
) -> bool {
    exists|a: Vec<String>|
        strs(a@) == args && #[trigger] call_ensures(R::run, (runner, "composer", &a, cwd), r)
}

/// `composer update --no-install --no-interaction`, run by `runner` in the
/// project directory; its outcome is the runner's. Re-resolve and rewrite
/// composer.lock; vendor/ is never touched.
pub fn update<R: Runner>(runner: &R, project_dir: &str) -> (r: Result<(), BridgeError>)
    ensures
        composer_ran(runner, spec_update_args(), project_dir, r),
{
    let args = update_args();
    runner.run("composer", &args, project_dir)
}

/// `composer require <packages> --no-install --no-interaction`.
pub fn require<R: Runner>(runner: &R, project_dir: &str, packages: &Vec<String>) -> (r: Result<
    (),
    BridgeError,
>)
    ensures
        composer_ran(runner, spec_change_args("require"@, strs(packages@)), project_dir, r),
{
    let args = change_args("require", packages);
    runner.run("composer", &args, project_dir)
}

/// `composer remove <packages> --no-install --no-interaction`.
pub fn remove<R: Runner>(runner: &R, project_dir: &str, packages: &Vec<String>) -> (r: Result<
    (),
    BridgeError,
>)
    ensures
        composer_ran(runner, spec_change_args("remove"@, strs(packages@)), project_dir, r),
{
    let args = change_args("remove", packages);
    runner.run("composer", &args, project_dir)
}

/// The project's composer.json (its text, if the file exists) declares the
/// script event: it reads as a composer.json and its `scripts` object has
/// the event as a key.
pub open spec fn script_declared(composer_json: Option<Seq<char>>, event: Seq<char>) -> bool {
    match composer_json {
        None => false,
        Some(t) => match json_document(t) {
            Some(j) => composer_json_ok(j) && match fget(j, "scripts"@, 5) {
                Some(Json::Object(o)) => lookup_last(o@, event) is Some,
                _ => false,
            },
            None => false,
        },
    }
}

/// Whether composer.json declares the script event.
pub fn declares_script(composer_json: Option<&str>, event: &str) -> (r: bool)
    ensures
        r == script_declared(
            match composer_json {
                Some(t) => Some(t@),
                None => None,
            },
            event@,
        ),
{
    match composer_json {
        None => false,
        Some(raw) => match parse_json(raw) {
            Ok(cj) => {
                // The scripts map answers for `event` as the document does.
                assert(opt_list_view(cj.scripts.spec_get(event@)) is Some <==> cj.scripts.spec_get(
                    event@,
                ) is Some);
                cj.scripts.contains_key(event)
            },
            Err(_) => false,
        },
    }
}

/// Runs a Composer script event (`composer run-script`), but only when the
/// project's composer.json declares it; an undeclared event is a no-op
/// (Composer would fail with "script not defined"). `composer_json` is the
/// text of the project's composer.json, None when there is none.
pub fn run_script<R: Runner>(
    runner: &R,
    project_dir: &str,
    composer_json: Option<&str>,
    event: &str,
) -> (r: Result<(), BridgeError>)
    ensures
        !script_declared(
            match composer_json {
                Some(t) => Some(t@),
                None => None,
            },
            event@,
        ) ==> r is Ok,
        script_declared(
            match composer_json {
                Some(t) => Some(t@),
                None => None,
            },
            event@,
        ) ==> composer_ran(runner, spec_script_args(event@), project_dir, r),
{
    if !declares_script(composer_json, event) {
        return Ok(());
    }
    let args = script_args(event);
    runner.run("composer", &args, project_dir)
}

} // verus!
