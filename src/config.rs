//! Configuration records and the resolution of their target paths.
use vstd::prelude::*;
use vstd::string::StringExecFns;
use vstd::string::StrSliceExecFns;

verus! {

/// One managed block to keep in a target file.
pub struct AppendConfig {
    /// The file that holds the block.
    pub target: String,
    /// The comment token that opens each sentinel line.
    pub comment: String,
    /// The text of the block, written as given.
    pub append: String,
}

/// A command to run before any block is written.
pub struct PreCommand {
    /// The program and its arguments, separated by whitespace.
    pub command: String,
}

/// What one configuration document declares, in order.
pub struct ConfibleFile {
    pub configs: Vec<AppendConfig>,
    pub commands: Vec<PreCommand>,
}

/// Why a target path could not be resolved.
#[derive(Debug, PartialEq, Eq, Structural)]
pub enum ResolveError {
    /// The path starts with `~` and no home directory is known.
    NoHomeDir,
}

/// Whether `target` names a path under the home directory.
pub open spec fn starts_with_tilde(target: Seq<char>) -> bool {
    target.len() > 0 && target[0] == '~'
}

/// `target` with a leading `~` replaced by `home`; any other target unchanged.
pub open spec fn expanded(target: Seq<char>, home: Seq<char>) -> Seq<char> {
    if starts_with_tilde(target) {
        home + target.drop_first()
    } else {
        target
    }
}

/// Replaces a leading `~` of `target` by `home`, keeping the rest verbatim.
pub fn expand_home(target: &str, home: &str) -> (r: String)
    ensures
        r@ == expanded(target@, home@),
{
    let n = target.unicode_len();
    if n > 0 && target.get_char(0) == '~' {
        let rest = target.substring_char(1, n);
        proof {
            assert(rest@ =~= target@.drop_first());
        }
        String::from_str(home).concat(rest)
    } else {
        String::from_str(target)
    }
}

/// Tilde expansion: a target `~` followed by `rest` resolves to the home
/// directory followed by `rest` exactly, so a separator after the `~` is kept
/// once and none is added.
pub proof fn lemma_tilde_expansion(home: Seq<char>, rest: Seq<char>)
    ensures
        expanded(seq!['~'] + rest, home) == home + rest,
{
    let t = seq!['~'] + rest;
    assert(t[0] == '~');
    assert(t.drop_first() =~= rest);
}

/// Relies on `dirs::home_dir` for the current user's home directory, and on
/// `OsString::into_string` to read it as text. The result depends on the
/// environment, so nothing is stated of it.
#[verifier::external_body]
fn home_dir() -> (r: Option<String>) {
    match dirs::home_dir() {
        Some(p) => p.into_os_string().into_string().ok(),
        None => None,
    }
}

/// Resolves `target`: a leading `~` is replaced by the home directory.
pub fn resolve_target(target: &str) -> (r: Result<String, ResolveError>)
    ensures
        !starts_with_tilde(target@) ==> r is Ok && r->Ok_0@ == target@,
        starts_with_tilde(target@) ==> match r {
            Ok(p) => exists|home: Seq<char>| p@ == expanded(target@, home),
            Err(e) => e == ResolveError::NoHomeDir,
        },
{
    let n = target.unicode_len();
    if n > 0 && target.get_char(0) == '~' {
        match home_dir() {
            Some(home) => {
                let p = expand_home(target, home.as_str());
                proof {
                    assert(p@ == expanded(target@, home@));
                }
                Ok(p)
            },
            None => Err(ResolveError::NoHomeDir),
        }
    } else {
        Ok(String::from_str(target))
    }
}

} // verus!
