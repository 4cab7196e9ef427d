//! Directories that belong to one installation of the application.

use vstd::prelude::*;
use vstd::string::StringExecFns;

verus! {

/// `base` joined with the path component `name`: `name` alone where it is
/// absolute, else `name` behind `base`, with a separator between the two
/// where `base` is not empty and does not end with one.
pub open spec fn join_path(base: Seq<char>, name: Seq<char>) -> Seq<char> {
    if name.len() > 0 && name[0] == '/' {
        name
    } else if base.len() == 0 || base.last() == '/' {
        base + name
    } else {
        base + seq!['/'] + name
    }
}

/// The subfolder of `base_dir` that belongs to the installation
/// `instance_id`: `base_dir` joined with the name `subfolder`, a hyphen and
/// the id.
pub open spec fn spec_instance_path(
    base_dir: Seq<char>,
    subfolder: Seq<char>,
    instance_id: Seq<char>,
) -> Seq<char> {
    join_path(base_dir, subfolder + seq!['-'] + instance_id)
}

/// The subfolder of `base_dir` that belongs to the installation
/// `instance_id`.
pub fn instance_path(base_dir: &str, subfolder: &str, instance_id: &str) -> (path: String)
    ensures
        path@ == spec_instance_path(base_dir@, subfolder@, instance_id@),
{
    proof {
        reveal_strlit("-");
        reveal_strlit("/");
    }
    let mut name = String::from_str(subfolder);
    name.append("-");
    name.append(instance_id);
    assert(name@ =~= subfolder@ + seq!['-'] + instance_id@) by {
        assert("-"@ =~= seq!['-']);
    }
    let n = name.as_str().unicode_len();
    let absolute = n > 0 && name.as_str().get_char(0) == '/';
    if absolute {
        return name;
    }
    let b = base_dir.unicode_len();
    let mut path = String::from_str(base_dir);
    if b > 0 && base_dir.get_char(b - 1) != '/' {
        path.append("/");
        assert("/"@ =~= seq!['/']);
    }
    path.append(name.as_str());
    path
}

/// `Uuid::new_v4` of the crate uuid, written out by its `to_string`: a
/// random id. Two calls give different ids, so nothing is promised of the
/// result.
#[verifier::external_body]
fn random_instance_id() -> String {
    uuid::Uuid::new_v4().to_string()
}

/// The id of an installation and whether it is new. `stored` is the id that
/// was found on disk, if any: it stays the id. Where none was found a random
/// id is made, which is new and has yet to be written to disk.
pub fn resolve_instance_id(stored: Option<String>) -> (resolved: (String, bool))
    ensures
        match stored {
            Some(id) => resolved.0 == id && !resolved.1,
            None => resolved.1,
        },
{
    match stored {
        Some(id) => (id, false),
        None => (random_instance_id(), true),
    }
}

} // verus!
