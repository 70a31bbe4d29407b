//! A repository of dialogue lists stored as JSON files in a folder.

use vstd::prelude::*;

use std::path::PathBuf;

verus! {

#[verifier::external_type_specification]
#[verifier::external_body]
pub struct ExPathBuf(std::path::PathBuf);

/// `PathBuf::from` on a string slice. The path it makes follows the
/// platform's path rules, so its contents are left unstated.
#[verifier::external_body]
fn path_from(s: &str) -> (r: PathBuf) {
    PathBuf::from(s)
}

/// `Path::join`: `name` adjoined to `base`. How the parts are separated
/// depends on the platform, so the result is left unstated.
#[verifier::external_body]
fn path_join(base: &PathBuf, name: &str) -> (r: PathBuf) {
    base.join(name)
}

/// `Path::with_extension`: `p` with its extension set to `ext`, which must
/// hold no path separator (std panics on one). The result is a platform
/// path, so it is left unstated.
#[verifier::external_body]
fn path_with_extension(p: &PathBuf, ext: &str) -> (r: PathBuf)
    requires
        forall|i: int| 0 <= i < ext@.len() ==> #[trigger] ext@[i] != '/' && ext@[i] != '\\',
{
    p.with_extension(ext)
}

/// A repository rooted at a folder: the list `name` is the file `name.json`
/// in that folder.
#[derive(Debug, Clone)]
pub struct LocalRepo {
    /// The folder, as given.
    base_path: String,
}

impl LocalRepo {
    /// A repository rooted at `base_folder`.
    pub fn new(base_folder: &str) -> (r: LocalRepo)
        ensures
            r.base()@ == base_folder@,
    {
        LocalRepo { base_path: base_folder.to_owned() }
    }

    /// The folder the repository is rooted at.
    pub closed spec fn base(&self) -> String {
        self.base_path
    }

    /// The folder the repository is rooted at.
    pub fn base_path(&self) -> (r: &str)
        ensures
            r@ == self.base()@,
    {
        self.base_path.as_str()
    }

    /// The path of the JSON file holding the list `name`: the folder joined
    /// with `name`, with the extension `json`.
    pub fn build_json_path(&self, name: &str) -> PathBuf {
        let base = path_from(self.base_path.as_str());
        let joined = path_join(&base, name);
        proof {
            reveal_strlit("json");
        }
        path_with_extension(&joined, "json")
    }
}

} // verus!
