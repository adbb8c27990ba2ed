//! The directory walk: post-order accounting over an entry tree, with
//! hard-link, device, exclusion, depth and threshold policies.
use vstd::prelude::*;
use crate::size::{FileStats, SizeFormat, disk_bytes};
use crate::exclude::ExclusionRules;
use crate::identity::{IdentitySet, count_step, identities, should_count};
use crate::format::append_bytes;

verus! {

broadcast use vstd::std_specs::vec::group_vec_axioms;

/// One directory entry as read from the filesystem: its name, `stat`
/// attributes and, for a directory that was opened, its entries.
pub struct Entry {
    pub name: Vec<u8>,
    pub stats: FileStats,
    pub dev: u64,
    pub ino: u64,
    pub nlink: u64,
    pub is_dir: bool,
    pub children: Vec<Entry>,
}

/// The settings of one walk, fixed for its whole duration.
pub struct TraversalConfig {
    /// Deepest level descended into; 0 for no limit.
    pub max_depth: u32,
    /// Device that every counted entry must be on, when set.
    pub root_dev: Option<u64>,
    pub exclusions: ExclusionRules,
    pub size_format: SizeFormat,
    /// Smallest size reported on a line, in the unit of `size_format`.
    pub threshold: u64,
    /// Report no line but the final total.
    pub summarize: bool,
    /// Report files as well as directories.
    pub list_files: bool,
    /// Count every link of a hard-linked file.
    pub count_hard_links: bool,
}

/// One reported line: a size and the path it belongs to.
pub struct Line {
    pub size: u64,
    pub path: Vec<u8>,
}

pub open spec fn line_view(l: Line) -> (nat, Seq<u8>) {
    (l.size as nat, l.path@)
}

pub open spec fn lines_view(ls: Seq<Line>) -> Seq<(nat, Seq<u8>)> {
    ls.map_values(|l: Line| line_view(l))
}

/// `name` appended to `p` as a new path component.
pub open spec fn join(p: Seq<u8>, name: Seq<u8>) -> Seq<u8> {
    if p.len() == 0 {
        name
    } else {
        p.push(47u8) + name
    }
}

/// The pseudo-entries `.` and `..`.
pub open spec fn is_dot_name(name: Seq<u8>) -> bool {
    name == seq![46u8] || name == seq![46u8, 46u8]
}

/// Depth of the entries of a subdirectory; depth is only tracked under a limit.
pub open spec fn next_depth(cfg: TraversalConfig, depth: nat) -> nat {
    if cfg.max_depth > 0 {
        depth + 1
    } else {
        depth
    }
}

/// An entry that is skipped entirely: a pseudo-entry, an entry on another
/// device than the root's, or an excluded one.
pub open spec fn skipped(cfg: TraversalConfig, child: Entry, abs: Seq<u8>) -> bool {
    is_dot_name(child.name@) || (cfg.root_dev is Some && child.dev != cfg.root_dev.unwrap())
        || cfg.exclusions.excludes(child.name@, join(abs, child.name@), child.is_dir)
}

/// A directory met at the depth limit: counted by its own size, not entered.
pub open spec fn at_depth_limit(cfg: TraversalConfig, depth: nat) -> bool {
    cfg.max_depth > 0 && depth >= cfg.max_depth
}

/// What the scan of a directory has produced so far.
pub struct ScanResult {
    pub total: nat,
    pub lines: Seq<(nat, Seq<u8>)>,
    pub seen: Set<(u64, u64)>,
}

/// Scan of directory `node` at `depth` (displayed as `path`, absolute path
/// `abs`) after its own size and its first `n` entries, starting from the
/// identities `seen`. Lines come in post-order: a subdirectory's line right
/// after the lines of its own subtree.
pub open spec fn scan(
    cfg: TraversalConfig,
    node: Entry,
    n: nat,
    depth: nat,
    path: Seq<u8>,
    abs: Seq<u8>,
    seen: Set<(u64, u64)>,
) -> ScanResult
    decreases node, n,
{
    if n == 0 || n > node.children@.len() {
        ScanResult { total: cfg.size_format.dir_size_spec(node.stats) as nat, lines: seq![], seen }
    } else {
        let prev = scan(cfg, node, (n - 1) as nat, depth, path, abs, seen);
        let child = node.children@[n - 1];
        let cpath = join(path, child.name@);
        let cabs = join(abs, child.name@);
        if skipped(cfg, child, abs) {
            prev
        } else if child.is_dir {
            if at_depth_limit(cfg, depth) {
                ScanResult {
                    total: prev.total + cfg.size_format.dir_size_spec(child.stats) as nat,
                    lines: prev.lines,
                    seen: prev.seen,
                }
            } else {
                let sub = scan(
                    cfg,
                    child,
                    child.children@.len(),
                    next_depth(cfg, depth),
                    cpath,
                    cabs,
                    prev.seen,
                );
                let own = if !cfg.summarize && sub.total >= cfg.threshold {
                    seq![(sub.total, cpath)]
                } else {
                    seq![]
                };
                ScanResult {
                    total: prev.total + sub.total,
                    lines: prev.lines + sub.lines + own,
                    seen: sub.seen,
                }
            }
        } else {
            let step = count_step(prev.seen, child.dev, child.ino, child.nlink, cfg.count_hard_links);
            if step.0 {
                let fsize = cfg.size_format.file_size_spec(child.stats) as nat;
                let own = if cfg.list_files && !cfg.summarize && fsize >= cfg.threshold {
                    seq![(fsize, cpath)]
                } else {
                    seq![]
                };
                ScanResult { total: prev.total + fsize, lines: prev.lines + own, seen: step.1 }
            } else {
                ScanResult { total: prev.total, lines: prev.lines, seen: step.1 }
            }
        }
    }
}

/// A whole scan of `node`, all of its entries.
pub open spec fn scan_all(
    cfg: TraversalConfig,
    node: Entry,
    depth: nat,
    path: Seq<u8>,
    abs: Seq<u8>,
    seen: Set<(u64, u64)>,
) -> ScanResult {
    scan(cfg, node, node.children@.len(), depth, path, abs, seen)
}

/// What an entry's `stat` can contribute in any unit: its apparent size plus
/// its allocated bytes.
pub open spec fn stats_weight(st: FileStats) -> nat {
    (st.size + disk_bytes(st)) as nat
}

/// Sum of the weights of `node` and of everything under its first `n`
/// entries; a bound on every total the walk can compute.
pub open spec fn weight(node: Entry, n: nat) -> nat
    decreases node, n,
{
    if n == 0 || n > node.children@.len() {
        stats_weight(node.stats)
    } else {
        let child = node.children@[n - 1];
        weight(node, (n - 1) as nat) + weight(child, child.children@.len())
    }
}

pub open spec fn tree_weight(node: Entry) -> nat {
    weight(node, node.children@.len())
}

impl TraversalConfig {
    /// Whether `dev` is off the device that the walk is bound to.
    pub fn crosses_device(&self, dev: u64) -> (r: bool)
        ensures
            r == (self.root_dev is Some && dev != self.root_dev.unwrap()),
    {
        match self.root_dev {
            Some(d) => dev != d,
            None => false,
        }
    }

    /// Whether a directory met at `depth` is entered.
    pub fn may_descend(&self, depth: u32) -> (r: bool)
        ensures
            r == !at_depth_limit(*self, depth as nat),
    {
        !(self.max_depth > 0 && depth >= self.max_depth)
    }

    /// Depth of the entries of a directory entered at `depth`.
    pub fn child_depth(&self, depth: u32) -> (r: u32)
        requires
            !at_depth_limit(*self, depth as nat),
        ensures
            r == next_depth(*self, depth as nat),
    {
        if self.max_depth > 0 {
            depth + 1
        } else {
            depth
        }
    }
}

proof fn lemma_weight_own(node: Entry, n: nat)
    ensures
        stats_weight(node.stats) <= weight(node, n),
    decreases n,
{
    if n > 0 && n <= node.children@.len() {
        lemma_weight_own(node, (n - 1) as nat);
    }
}

proof fn lemma_weight_mono(node: Entry, i: nat, j: nat)
    requires
        i <= j <= node.children@.len(),
    ensures
        weight(node, i) <= weight(node, j),
    decreases j,
{
    if i < j {
        lemma_weight_mono(node, i, (j - 1) as nat);
    }
}

proof fn lemma_sizes_within_weight(f: SizeFormat, st: FileStats)
    ensures
        f.dir_size_spec(st) <= stats_weight(st),
        f.file_size_spec(st) <= stats_weight(st),
        0 <= f.dir_size_spec(st),
        0 <= f.file_size_spec(st),
{
}

/// Every total of a scan stays within the weight of what it scanned.
proof fn lemma_scan_bounded(
    cfg: TraversalConfig,
    node: Entry,
    n: nat,
    depth: nat,
    path: Seq<u8>,
    abs: Seq<u8>,
    seen: Set<(u64, u64)>,
)
    ensures
        scan(cfg, node, n, depth, path, abs, seen).total <= weight(node, n),
    decreases node, n,
{
    lemma_sizes_within_weight(cfg.size_format, node.stats);
    if n > 0 && n <= node.children@.len() {
        let prev = scan(cfg, node, (n - 1) as nat, depth, path, abs, seen);
        lemma_scan_bounded(cfg, node, (n - 1) as nat, depth, path, abs, seen);
        let child = node.children@[n - 1];
        lemma_sizes_within_weight(cfg.size_format, child.stats);
        lemma_weight_own(child, child.children@.len());
        if !skipped(cfg, child, abs) && child.is_dir && !at_depth_limit(cfg, depth) {
            lemma_scan_bounded(
                cfg,
                child,
                child.children@.len(),
                next_depth(cfg, depth),
                join(path, child.name@),
                join(abs, child.name@),
                prev.seen,
            );
        }
    }
}

fn copy_bytes(s: &[u8]) -> (r: Vec<u8>)
    ensures
        r@ == s@,
{
    let mut r: Vec<u8> = Vec::new();
    append_bytes(&mut r, s);
    r
}

/// Appends `name` to the path in `p` as a new component.
fn push_component(p: &mut Vec<u8>, name: &[u8])
    ensures
        final(p)@ == join(old(p)@, name@),
        final(p)@.subrange(0, old(p)@.len() as int) == old(p)@,
{
    if p.len() > 0 {
        p.push(47u8);
    }
    append_bytes(p, name);
}

fn is_dot_entry(name: &[u8]) -> (r: bool)
    ensures
        r == is_dot_name(name@),
{
    if name.len() == 1 {
        assert(name@ == seq![name@[0]]);
        name[0] == 46u8
    } else if name.len() == 2 {
        assert(name@ == seq![name@[0], name@[1]]);
        name[0] == 46u8 && name[1] == 46u8
    } else {
        false
    }
}

fn emit(out: &mut Vec<Line>, size: u64, path: &[u8])
    ensures
        lines_view(final(out)@) == lines_view(old(out)@).push((size as nat, path@)),
{
    out.push(Line { size, path: copy_bytes(path) });
    assert(lines_view(final(out)@) =~= lines_view(old(out)@).push((size as nat, path@)));
}

/// Scans directory `node` at `depth`, whose displayed path is in `path` and
/// absolute path in `abs`: adds its lines to `out` in post-order and returns
/// its total. `path` and `abs` are restored before returning.
fn scan_dir(
    cfg: &TraversalConfig,
    node: &Entry,
    depth: u32,
    path: &mut Vec<u8>,
    abs: &mut Vec<u8>,
    seen: &mut IdentitySet,
    out: &mut Vec<Line>,
) -> (total: u64)
    requires
        tree_weight(*node) <= 0xffff_ffff_ffff_ffff,
    ensures
        ({
            let r = scan_all(*cfg, *node, depth as nat, old(path)@, old(abs)@, identities(*old(seen)));
            &&& total == r.total
            &&& lines_view(final(out)@) == lines_view(old(out)@) + r.lines
            &&& identities(*final(seen)) == r.seen
        }),
        final(path)@ == old(path)@,
        final(abs)@ == old(abs)@,
    decreases node,
{
    let ghost path0 = path@;
    let ghost abs0 = abs@;
    let ghost seen0 = identities(*seen);
    let ghost out0 = lines_view(out@);
    let ghost len = node.children@.len();
    proof {
        lemma_weight_own(*node, len);
        lemma_sizes_within_weight(cfg.size_format, node.stats);
    }
    let mut total: u64 = cfg.size_format.get_dir_size(&node.stats);
    assert(lines_view(out@) =~= out0 + Seq::<(nat, Seq<u8>)>::empty());
    let mut i: usize = 0;
    while i < node.children.len()
        invariant
            i <= len,
            len == node.children@.len(),
            path@ == path0,
            abs@ == abs0,
            tree_weight(*node) <= 0xffff_ffff_ffff_ffff,
            ({
                let r = scan(*cfg, *node, i as nat, depth as nat, path0, abs0, seen0);
                &&& total == r.total
                &&& lines_view(out@) == out0 + r.lines
                &&& identities(*seen) == r.seen
            }),
        decreases len - i,
    {
        let child = &node.children[i];
        let ghost prev = scan(*cfg, *node, i as nat, depth as nat, path0, abs0, seen0);
        let ghost out1 = lines_view(out@);
        proof {
            lemma_scan_bounded(*cfg, *node, (i + 1) as nat, depth as nat, path0, abs0, seen0);
            lemma_weight_mono(*node, (i + 1) as nat, len);
            lemma_weight_own(*child, child.children@.len());
            lemma_sizes_within_weight(cfg.size_format, child.stats);
        }
        let other_device = cfg.crosses_device(child.dev);
        let name = child.name.as_slice();
        if !is_dot_entry(name) && !other_device {
            let abs_len = abs.len();
            push_component(abs, name);
            if !cfg.exclusions.is_excluded(name, abs.as_slice(), child.is_dir) {
                if child.is_dir {
                    if !cfg.may_descend(depth) {
                        total = total + cfg.size_format.get_dir_size(&child.stats);
                    } else {
                        let nd = cfg.child_depth(depth);
                        let path_len = path.len();
                        push_component(path, name);
                        let sub = scan_dir(cfg, child, nd, path, abs, seen, out);
                        if !cfg.summarize && sub >= cfg.threshold {
                            emit(out, sub, path.as_slice());
                        }
                        total = total + sub;
                        path.truncate(path_len);
                    }
                } else {
                    let counted = should_count(
                        seen,
                        child.dev,
                        child.ino,
                        child.nlink,
                        cfg.count_hard_links,
                    );
                    if counted {
                        let fsize = cfg.size_format.get_file_size(&child.stats);
                        total = total + fsize;
                        if cfg.list_files && !cfg.summarize && fsize >= cfg.threshold {
                            let path_len = path.len();
                            push_component(path, name);
                            emit(out, fsize, path.as_slice());
                            path.truncate(path_len);
                        }
                    }
                }
            }
            abs.truncate(abs_len);
        }
        let ghost r = scan(*cfg, *node, (i + 1) as nat, depth as nat, path0, abs0, seen0);
        assert(lines_view(out@) =~= out0 + r.lines);
        i += 1;
    }
    total
}

/// Walks the tree under `root`, whose own `stat` seeds the total: returns
/// the total and the reported lines, children before their parents. Paths on
/// lines start with `root_path`; exclusion paths are matched against paths
/// that start with `root_abs`.
pub fn walk(cfg: &TraversalConfig, root: &Entry, root_path: &[u8], root_abs: &[u8]) -> (r: (
    u64,
    Vec<Line>,
))
    requires
        tree_weight(*root) <= 0xffff_ffff_ffff_ffff,
    ensures
        ({
            let s = walk_spec(*cfg, *root, root_path@, root_abs@);
            r.0 == s.total && lines_view(r.1@) == s.lines
        }),
{
    if cfg.crosses_device(root.dev) {
        return (0, Vec::new());
    }
    let mut seen = IdentitySet::new();
    let mut path = copy_bytes(root_path);
    let mut abs = copy_bytes(root_abs);
    let mut out: Vec<Line> = Vec::new();
    assert(lines_view(out@) =~= Seq::<(nat, Seq<u8>)>::empty());
    let total = scan_dir(cfg, root, 0, &mut path, &mut abs, &mut seen, &mut out);
    assert(lines_view(Seq::<Line>::empty()) =~= Seq::<(nat, Seq<u8>)>::empty());
    assert(Seq::<(nat, Seq<u8>)>::empty() + walk_spec(*cfg, *root, root_path@, root_abs@).lines
        == walk_spec(*cfg, *root, root_path@, root_abs@).lines);
    (total, out)
}

/// The walk of a whole tree from a fresh identity set. A root off the device
/// that the walk is bound to counts nothing and reports nothing.
pub open spec fn walk_spec(cfg: TraversalConfig, root: Entry, path: Seq<u8>, abs: Seq<u8>) -> ScanResult {
    if cfg.root_dev is Some && root.dev != cfg.root_dev.unwrap() {
        ScanResult { total: 0, lines: seq![], seen: Set::empty() }
    } else {
        scan_all(cfg, root, 0, path, abs, Set::empty())
    }
}

} // verus!
