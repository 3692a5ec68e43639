//! The number under which the kernel hands a watched path back.
use crate::path::{components, Component};
use camino::Utf8Path;
use std::collections::hash_map::DefaultHasher;
use std::hash::Hash;
use std::hash::Hasher;
use vstd::prelude::*;
use vstd::std_specs::hash::DefaultHasherAdditionalSpecFns;

verus! {

/// What `camino::Utf8Path::hash` feeds to a hasher for a path of these components.
pub uninterp spec fn path_hash_writes(parts: Seq<Component>) -> Seq<Seq<u8>>;

/// Calls `camino::Utf8Path::hash`, which feeds the path to the hasher, after what was fed before;
/// equal paths, which are those with the same components, feed the same.
#[verifier::external_body]
fn hash_path(path: &str, hasher: &mut DefaultHasher)
    ensures
        final(hasher)@ == old(hasher)@ + path_hash_writes(components(path@)),
{
    Utf8Path::new(path).hash(hasher)
}

/// The cookie of a path: the hash of its components.
pub open spec fn cookie_of(path: Seq<char>) -> u64 {
    DefaultHasher::spec_finish(path_hash_writes(components(path)))
}

/// Computes the cookie of a path.
pub fn path_to_cookie(path: &str) -> (r: u64)
    ensures
        r == cookie_of(path@),
        r == DefaultHasher::spec_finish(path_hash_writes(components(path@))),
{
    let mut hasher = DefaultHasher::new();
    hash_path(path, &mut hasher);
    assert(hasher@ =~= path_hash_writes(components(path@)));
    hasher.finish()
}

/// However a path is spelled, it has the same cookie.
pub proof fn law_same_path_same_cookie(a: Seq<char>, b: Seq<char>)
    requires
        crate::path::same_path(a, b),
    ensures
        cookie_of(a) == cookie_of(b),
{
}

/// The cookie is what the hasher gives that was fed the whole path and nothing else. So two paths
/// share a cookie only where the hasher gives the same for all their components.
pub proof fn law_cookie_is_of_the_whole_path(a: Seq<char>, b: Seq<char>)
    ensures
        cookie_of(a) == DefaultHasher::spec_finish(path_hash_writes(components(a))),
        cookie_of(a) == cookie_of(b) <==> DefaultHasher::spec_finish(
            path_hash_writes(components(a)),
        ) == DefaultHasher::spec_finish(path_hash_writes(components(b))),
{
}

} // verus!
