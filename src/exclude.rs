//! The exclusion predicate: directories excluded by absolute path, entries
//! excluded by file extension.
use vstd::prelude::*;

verus! {

/// A set of byte strings (paths or extensions).
#[verifier::external_body]
pub struct ByteSet {
    inner: fxhash::FxHashSet<Vec<u8>>,
}

/// The byte strings that a set holds.
pub uninterp spec fn byte_set_contents(s: ByteSet) -> Set<Seq<u8>>;

/// Relies on `fxhash::FxHashSet` (std's `HashSet` with the Fx hasher) and its
/// `Default`: a new set is empty.
#[verifier::external_body]
fn fx_bytes_new() -> (r: ByteSet)
    ensures
        byte_set_contents(r) == Set::<Seq<u8>>::empty(),
{
    ByteSet { inner: fxhash::FxHashSet::default() }
}

/// Relies on `HashSet::insert` over the Fx hasher: the key is present
/// afterwards and nothing else changes.
#[verifier::external_body]
fn fx_bytes_insert(s: &mut ByteSet, key: Vec<u8>)
    ensures
        byte_set_contents(*final(s)) == byte_set_contents(*old(s)).insert(key@),
{
    s.inner.insert(key);
}

/// Relies on `HashSet::contains` over the Fx hasher, looking a `Vec<u8>` up
/// by a byte slice through `Borrow`.
#[verifier::external_body]
fn fx_bytes_contains(s: &ByteSet, key: &[u8]) -> (r: bool)
    ensures
        r == byte_set_contents(*s).contains(key@),
{
    s.inner.contains(key)
}

/// Index of the last dot in `s`.
pub open spec fn last_dot(s: Seq<u8>) -> Option<nat>
    decreases s.len(),
{
    if s.len() == 0 {
        None
    } else if s.last() == 46 {
        Some((s.len() - 1) as nat)
    } else {
        last_dot(s.drop_last())
    }
}

/// Extension of a file name: what follows its last dot, unless that dot
/// opens the name (`.profile` has none).
pub open spec fn extension(name: Seq<u8>) -> Option<Seq<u8>> {
    match last_dot(name) {
        Some(i) => if i > 0 {
            Some(name.skip(i + 1 as int))
        } else {
            None
        },
        None => None,
    }
}

/// The exclusions of one run: absolute directory paths, and extensions given
/// without their leading `*.`.
pub struct ExclusionRules {
    pub paths: ByteSet,
    pub patterns: ByteSet,
}

impl ExclusionRules {
    pub open spec fn path_set(&self) -> Set<Seq<u8>> {
        byte_set_contents(self.paths)
    }

    pub open spec fn pattern_set(&self) -> Set<Seq<u8>> {
        byte_set_contents(self.patterns)
    }

    /// Whether an entry named `name` at absolute path `abs` is skipped.
    pub open spec fn excludes(&self, name: Seq<u8>, abs: Seq<u8>, is_dir: bool) -> bool {
        (is_dir && self.path_set().contains(abs)) || match extension(name) {
            Some(ext) => self.pattern_set().contains(ext),
            None => false,
        }
    }

    /// No exclusions.
    pub fn new() -> (r: ExclusionRules)
        ensures
            r.path_set() == Set::<Seq<u8>>::empty(),
            r.pattern_set() == Set::<Seq<u8>>::empty(),
    {
        ExclusionRules { paths: fx_bytes_new(), patterns: fx_bytes_new() }
    }

    /// Excludes the directory at absolute path `path`.
    pub fn add_path(&mut self, path: Vec<u8>)
        ensures
            final(self).path_set() == old(self).path_set().insert(path@),
            final(self).pattern_set() == old(self).pattern_set(),
    {
        fx_bytes_insert(&mut self.paths, path);
    }

    /// Excludes every entry with extension `ext`.
    pub fn add_pattern(&mut self, ext: Vec<u8>)
        ensures
            final(self).pattern_set() == old(self).pattern_set().insert(ext@),
            final(self).path_set() == old(self).path_set(),
    {
        fx_bytes_insert(&mut self.patterns, ext);
    }

    /// Decides whether an entry is excluded: a directory by its absolute
    /// path, any entry by its extension.
    pub fn is_excluded(&self, name: &[u8], abs: &[u8], is_dir: bool) -> (r: bool)
        ensures
            r == self.excludes(name@, abs@, is_dir),
    {
        if is_dir && fx_bytes_contains(&self.paths, abs) {
            return true;
        }
        match extension_start(name) {
            Some(i) => {
                let ext = slice_from(name, i);
                fx_bytes_contains(&self.patterns, ext.as_slice())
            },
            None => false,
        }
    }
}

/// Start of the extension of `name`, just past its last dot.
pub fn extension_start(name: &[u8]) -> (r: Option<usize>)
    ensures
        match extension(name@) {
            Some(ext) => r is Some && r.unwrap() <= name@.len() && name@.skip(r.unwrap() as int)
                == ext,
            None => r is None,
        },
{
    let mut k: usize = name.len();
    assert(name@.take(k as int) == name@);
    while k > 0 && name[k - 1] != 46u8
        invariant
            k <= name@.len(),
            last_dot(name@) == last_dot(name@.take(k as int)),
        decreases k,
    {
        assert(name@.take(k as int).drop_last() == name@.take(k - 1 as int));
        k -= 1;
    }
    if k == 0 {
        assert(name@.take(0) =~= Seq::<u8>::empty());
        None
    } else if k == 1 {
        None
    } else {
        Some(k)
    }
}

pub(crate) fn slice_from(s: &[u8], start: usize) -> (r: Vec<u8>)
    requires
        start <= s@.len(),
    ensures
        r@ == s@.skip(start as int),
{
    let mut r: Vec<u8> = Vec::new();
    let mut i: usize = start;
    while i < s.len()
        invariant
            start <= i <= s@.len(),
            r@ == s@.subrange(start as int, i as int),
        decreases s@.len() - i,
    {
        r.push(s[i]);
        i += 1;
    }
    r
}

} // verus!
