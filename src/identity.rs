//! The identity tracker: which hard-linked files were already counted.
use vstd::prelude::*;

verus! {

/// The `(device, inode)` pairs of hard-linked files seen so far in one run.
#[verifier::external_body]
pub struct IdentitySet {
    inner: fxhash::FxHashSet<(u64, u64)>,
}

/// The identities that a set holds.
pub uninterp spec fn identities(s: IdentitySet) -> Set<(u64, u64)>;

/// Relies on `fxhash::FxHashSet` (std's `HashSet` with the Fx hasher) and its
/// `Default`: a new set is empty.
#[verifier::external_body]
fn fx_identities_new() -> (r: IdentitySet)
    ensures
        identities(r) == Set::<(u64, u64)>::empty(),
{
    IdentitySet { inner: fxhash::FxHashSet::default() }
}

/// Relies on `HashSet::insert` over the Fx hasher: it reports whether the key
/// was absent, and the key is present afterwards.
#[verifier::external_body]
fn fx_identities_insert(s: &mut IdentitySet, key: (u64, u64)) -> (r: bool)
    ensures
        r == !identities(*old(s)).contains(key),
        identities(*final(s)) == identities(*old(s)).insert(key),
{
    s.inner.insert(key)
}

/// Whether a file is counted, and the identities seen afterwards: every link
/// counts when `count_hard_links` is set or the file has a single link;
/// otherwise only the first sighting of its `(device, inode)` counts.
pub open spec fn count_step(
    seen: Set<(u64, u64)>,
    dev: u64,
    ino: u64,
    nlink: u64,
    count_hard_links: bool,
) -> (bool, Set<(u64, u64)>) {
    if count_hard_links || nlink <= 1 {
        (true, seen)
    } else {
        (!seen.contains((dev, ino)), seen.insert((dev, ino)))
    }
}

impl IdentitySet {
    pub fn new() -> (r: IdentitySet)
        ensures
            identities(r) == Set::<(u64, u64)>::empty(),
    {
        fx_identities_new()
    }
}

/// Decides whether a file with the given identity and link count is counted,
/// recording its identity when it is hard-linked and links are deduplicated.
pub fn should_count(
    seen: &mut IdentitySet,
    dev: u64,
    ino: u64,
    nlink: u64,
    count_hard_links: bool,
) -> (r: bool)
    ensures
        (r, identities(*final(seen))) == count_step(
            identities(*old(seen)),
            dev,
            ino,
            nlink,
            count_hard_links,
        ),
{
    if count_hard_links || nlink <= 1 {
        true
    } else {
        fx_identities_insert(seen, (dev, ino))
    }
}

/// Hard-link deduplication: meeting the same hard-linked identity twice counts
/// it once when links are deduplicated, and twice when every link counts.
pub proof fn lemma_hard_link_counted_once(
    seen: Set<(u64, u64)>,
    dev: u64,
    ino: u64,
    nlink: u64,
    count_hard_links: bool,
)
    requires
        nlink > 1,
        !seen.contains((dev, ino)),
    ensures
        ({
            let first = count_step(seen, dev, ino, nlink, count_hard_links);
            let second = count_step(first.1, dev, ino, nlink, count_hard_links);
            first.0 && second.0 == count_hard_links
        }),
{
}

} // verus!
