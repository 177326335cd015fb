use vstd::prelude::*;

use crate::StoreError;

verus! {

/// The per-root directory deleted files are moved into.
pub const TRASH_DIR: &'static str = ".trash";

/// The URL prefix under which a storage root's files are served.
pub const BASE_PATH_PREFIX: &'static str = "base_";

/// Length of the leading run of path separators.
pub open spec fn slash_run(s: Seq<char>) -> nat
    decreases s.len(),
{
    if s.len() == 0 || s[0] != '/' {
        0
    } else {
        (1 + slash_run(s.drop_first())) as nat
    }
}

proof fn lemma_slash_run_exact(s: Seq<char>, j: nat)
    requires
        j <= s.len(),
        forall|k: int| 0 <= k < j ==> s[k] == '/',
        j == s.len() || s[j as int] != '/',
    ensures
        slash_run(s) == j,
    decreases j,
{
    if j > 0 {
        let t = s.drop_first();
        assert forall|k: int| 0 <= k < j - 1 implies t[k] == '/' by {
            assert(t[k] == s[k + 1]);
        }
        if j < s.len() {
            assert(t[j - 1] == s[j as int]);
        }
        lemma_slash_run_exact(t, (j - 1) as nat);
    }
}

/// `base` is a directory prefix of `path`: a character prefix that ends at
/// a component boundary, so a root `/a` does not claim `/ab/c`.
pub open spec fn is_dir_prefix(base: Seq<char>, path: Seq<char>) -> bool {
    crate::text::is_prefix(base, path) && (base.len() == path.len() || path[base.len() as int]
        == '/' || base.len() == 0 || base.last() == '/')
}

/// The path of a file relative to its storage root: the root prefix and
/// any separators after it are removed.  Fails if and only if the root is
/// not a directory prefix of the path.
pub fn get_relative_path(base_path: &str, path: &str) -> (r: Result<String, StoreError>)
    ensures
        match r {
            Ok(rel) => is_dir_prefix(base_path@, path@) && rel@ == {
                let rest = path@.skip(base_path@.len() as int);
                rest.skip(slash_run(rest) as int)
            },
            Err(e) => e == StoreError::NotFound && !is_dir_prefix(base_path@, path@),
        },
{
    if !crate::text::str_starts_with(path, base_path) {
        return Err(StoreError::NotFound);
    }
    let n = path.unicode_len();
    let nb = base_path.unicode_len();
    let boundary = nb == n || nb == 0 || path.get_char(nb) == '/' || base_path.get_char(nb - 1)
        == '/';
    if !boundary {
        return Err(StoreError::NotFound);
    }
    let mut i: usize = nb;
    while i < n && path.get_char(i) == '/'
        invariant
            nb <= i <= n,
            n == path@.len(),
            nb == base_path@.len(),
            forall|k: int| nb <= k < i ==> path@[k] == '/',
        decreases n - i,
    {
        i = i + 1;
    }
    let rel = path.substring_char(i, n).to_owned();
    proof {
        let rest = path@.skip(nb as int);
        assert forall|k: int| 0 <= k < i - nb implies rest[k] == '/' by {
            assert(rest[k] == path@[k + nb]);
        }
        if i < n {
            assert(rest[i - nb] == path@[i as int]);
        }
        lemma_slash_run_exact(rest, (i - nb) as nat);
        assert(rel@ =~= rest.skip(slash_run(rest) as int));
    }
    Ok(rel)
}

/// Where a model of the given type is conventionally stored under a root:
/// a well-known subdirectory for the common types, else a subdirectory
/// named after the lower-cased type.
pub fn guess_saved_location(base_path: &str, model_type: &str) -> (r: String)
    ensures
        r@ == base_path@ + (if crate::text::lower_seq(model_type@) == crate::text::lower_seq(
            "LORA"@,
        ) {
            "/loras"@
        } else if crate::text::lower_seq(model_type@) == crate::text::lower_seq("Hypernetwork"@) {
            "/hypernetworks"@
        } else if crate::text::lower_seq(model_type@) == crate::text::lower_seq("Checkpoint"@) {
            "/checkpoints"@
        } else {
            "/"@ + crate::text::lower_seq(model_type@)
        }),
{
    let mut out = base_path.to_owned();
    if crate::text::eq_ignore_case(model_type, "LORA") {
        out.append("/loras");
    } else if crate::text::eq_ignore_case(model_type, "Hypernetwork") {
        out.append("/hypernetworks");
    } else if crate::text::eq_ignore_case(model_type, "Checkpoint") {
        out.append("/checkpoints");
    } else {
        out.append("/");
        let low = crate::text::lower_str(model_type);
        out.append(low.as_str());
        proof {
            assert(base_path@ + "/"@ + crate::text::lower_seq(model_type@) =~= base_path@ + ("/"@
                + crate::text::lower_seq(model_type@)));
        }
    }
    out
}

/// A file is eligible for the catalog when its extension stands in the
/// configured allow-list.
pub fn is_eligible(ext: &str, allowed: &Vec<String>) -> (r: bool)
    ensures
        r == exists|k: int| 0 <= k < allowed@.len() && (#[trigger] allowed@[k])@ == ext@,
{
    let n = allowed.len();
    let mut i: usize = 0;
    while i < n
        invariant
            i <= n,
            n == allowed@.len(),
            forall|k: int| 0 <= k < i ==> (#[trigger] allowed@[k])@ != ext@,
        decreases n - i,
    {
        if crate::text::str_eq(allowed[i].as_str(), ext) {
            proof {
                assert(allowed@[i as int]@ == ext@);
            }
            return true;
        }
        i = i + 1;
    }
    false
}

/// A download destination must lie inside one of the configured storage
/// roots.
pub fn is_inside_base(path: &str, base_paths: &Vec<(String, String)>) -> (r: bool)
    ensures
        r == exists|k: int|
            0 <= k < base_paths@.len() && crate::text::is_prefix(
                (#[trigger] base_paths@[k]).1@,
                path@,
            ),
{
    let n = base_paths.len();
    let mut i: usize = 0;
    while i < n
        invariant
            i <= n,
            n == base_paths@.len(),
            forall|k: int|
                0 <= k < i ==> !crate::text::is_prefix((#[trigger] base_paths@[k]).1@, path@),
        decreases n - i,
    {
        if crate::text::str_starts_with(path, base_paths[i].1.as_str()) {
            proof {
                assert(crate::text::is_prefix(base_paths@[i as int].1@, path@));
            }
            return true;
        }
        i = i + 1;
    }
    false
}

} // verus!
