//! Environments: named connection descriptors kept in `<name>.scm.toml` files.
//! The library only names the files and carries the host through; reading and
//! writing them is the caller's part.

use vstd::prelude::*;
use vstd::string::StringExecFns;
use vstd::string::StrSliceExecFns;

verus! {

/// An environment file: the connection to run migrations against.
#[derive(Debug)]
pub struct EnvironmentFile {
    pub connection: Connection,
}

/// Where the cluster is reached.
#[derive(Debug)]
pub struct Connection {
    pub host: String,
}

/// The environment used when none is named.
pub open spec fn default_id() -> Seq<char> {
    "dev"@
}

/// The suffix of every environment file.
pub open spec fn env_suffix() -> Seq<char> {
    ".scm.toml"@
}

impl EnvironmentFile {
    /// An environment that connects to `host`.
    pub fn new(host: String) -> (r: EnvironmentFile)
        ensures
            r.connection.host@ == host@,
    {
        EnvironmentFile { connection: Connection { host } }
    }
}

/// The environment to use: the one named, else `dev`.
pub fn environment_id(env: Option<String>) -> (r: String)
    ensures
        r@ == match env {
            Some(id) => id@,
            None => default_id(),
        },
{
    match env {
        Some(id) => id,
        None => String::from_str("dev"),
    }
}

/// The file that holds environment `id`: `<id>.scm.toml`.
pub fn environment_path(id: &str) -> (r: String)
    ensures
        r@ == id@ + env_suffix(),
{
    let mut r = String::from_str(id);
    r.append(".scm.toml");
    r
}

/// Whether `path` names an environment file, that is, ends in `.scm.toml`.
pub fn is_environment_file(path: &str) -> (r: bool)
    ensures
        r == (path@.len() >= env_suffix().len() && path@.subrange(
            path@.len() - env_suffix().len(),
            path@.len() as int,
        ) == env_suffix()),
{
    let suffix = ".scm.toml";
    proof {
        reveal_strlit(".scm.toml");
    }
    let n = path.unicode_len();
    let k = suffix.unicode_len();
    if n < k {
        return false;
    }
    let mut i: usize = 0;
    while i < k
        invariant
            n == path@.len(),
            k == suffix@.len(),
            k <= n,
            i <= k,
            suffix@ == env_suffix(),
            forall|j: int| 0 <= j < i ==> path@[n - k + j] == suffix@[j],
        decreases k - i,
    {
        if path.get_char(n - k + i) != suffix.get_char(i) {
            proof {
                let tail = path@.subrange(n - k, n as int);
                assert(tail[i as int] != env_suffix()[i as int]);
            }
            return false;
        }
        i = i + 1;
    }
    assert(path@.subrange(n - k, n as int) =~= env_suffix());
    true
}

} // verus!
