//! Properties of the walk as a whole.
use vstd::prelude::*;
use crate::size::SizeFormat;
use crate::identity::count_step;
use crate::walk::{
    Entry, TraversalConfig, at_depth_limit, is_dot_name, join, next_depth, scan, skipped, walk_spec,
};

verus! {

/// Everything under `node`'s first `n` entries in unit `f`: each directory's
/// own size and each file's size. Pseudo-entries are not entries.
pub open spec fn tree_total(f: SizeFormat, node: Entry, n: nat) -> nat
    decreases node, n,
{
    if n == 0 || n > node.children@.len() {
        f.dir_size_spec(node.stats) as nat
    } else {
        let child = node.children@[n - 1];
        tree_total(f, node, (n - 1) as nat) + if is_dot_name(child.name@) {
            0
        } else if child.is_dir {
            tree_total(f, child, child.children@.len())
        } else {
            f.file_size_spec(child.stats) as nat
        }
    }
}

/// Apparent sizes of the files under `node`'s first `n` entries.
pub open spec fn apparent_total(node: Entry, n: nat) -> nat
    decreases node, n,
{
    if n == 0 || n > node.children@.len() {
        0
    } else {
        let child = node.children@[n - 1];
        apparent_total(node, (n - 1) as nat) + if is_dot_name(child.name@) {
            0
        } else if child.is_dir {
            apparent_total(child, child.children@.len())
        } else {
            child.stats.size as nat
        }
    }
}

/// No entry under `node`'s first `n` entries is excluded or on another
/// device, and none is a hard-linked file that deduplication could drop.
pub open spec fn plain_tree(cfg: TraversalConfig, node: Entry, n: nat, abs: Seq<u8>) -> bool
    decreases node, n,
{
    if n == 0 || n > node.children@.len() {
        true
    } else {
        let child = node.children@[n - 1];
        &&& plain_tree(cfg, node, (n - 1) as nat, abs)
        &&& !is_dot_name(child.name@) ==> {
            &&& !skipped(cfg, child, abs)
            &&& child.is_dir ==> plain_tree(
                cfg,
                child,
                child.children@.len(),
                join(abs, child.name@),
            )
            &&& !child.is_dir ==> (child.nlink <= 1 || cfg.count_hard_links)
        }
    }
}

/// Conservation: without a depth limit, on a tree with no skipped entries and
/// no deduplicated hard links, the total is every directory's own size plus
/// every file's size; in `Bytes` units, the sum of the files' apparent sizes.
pub proof fn lemma_conservation(
    cfg: TraversalConfig,
    node: Entry,
    n: nat,
    depth: nat,
    path: Seq<u8>,
    abs: Seq<u8>,
    seen: Set<(u64, u64)>,
)
    requires
        cfg.max_depth == 0,
        plain_tree(cfg, node, n, abs),
    ensures
        scan(cfg, node, n, depth, path, abs, seen).total == tree_total(cfg.size_format, node, n),
        cfg.size_format == SizeFormat::Bytes ==> scan(cfg, node, n, depth, path, abs, seen).total
            == apparent_total(node, n),
    decreases node, n,
{
    if n > 0 && n <= node.children@.len() {
        let prev = scan(cfg, node, (n - 1) as nat, depth, path, abs, seen);
        lemma_conservation(cfg, node, (n - 1) as nat, depth, path, abs, seen);
        let child = node.children@[n - 1];
        if child.is_dir && !is_dot_name(child.name@) {
            lemma_conservation(
                cfg,
                child,
                child.children@.len(),
                next_depth(cfg, depth),
                join(path, child.name@),
                join(abs, child.name@),
                prev.seen,
            );
        }
    }
}

/// Conservation for a whole walk: without a depth limit, on a tree whose
/// root is on the bound device and below which nothing is excluded, on
/// another device or a deduplicated hard link, the walk's total is every
/// directory's own size plus every file's size; in `Bytes` units, the sum of
/// the files' apparent sizes.
pub proof fn lemma_walk_conservation(cfg: TraversalConfig, root: Entry, path: Seq<u8>, abs: Seq<u8>)
    requires
        cfg.max_depth == 0,
        cfg.root_dev is Some ==> root.dev == cfg.root_dev.unwrap(),
        plain_tree(cfg, root, root.children@.len(), abs),
    ensures
        walk_spec(cfg, root, path, abs).total == tree_total(
            cfg.size_format,
            root,
            root.children@.len(),
        ),
        cfg.size_format == SizeFormat::Bytes ==> walk_spec(cfg, root, path, abs).total
            == apparent_total(root, root.children@.len()),
{
    lemma_conservation(cfg, root, root.children@.len(), 0, path, abs, Set::empty());
}

/// Depth limiting: a directory met at the depth limit adds only its own size
/// and no line; nothing below it is read or reported.
pub proof fn lemma_depth_boundary(
    cfg: TraversalConfig,
    node: Entry,
    n: nat,
    depth: nat,
    path: Seq<u8>,
    abs: Seq<u8>,
    seen: Set<(u64, u64)>,
)
    requires
        0 < n <= node.children@.len(),
        node.children@[n - 1].is_dir,
        !skipped(cfg, node.children@[n - 1], abs),
        at_depth_limit(cfg, depth),
    ensures
        ({
            let prev = scan(cfg, node, (n - 1) as nat, depth, path, abs, seen);
            let cur = scan(cfg, node, n, depth, path, abs, seen);
            &&& cur.total == prev.total + cfg.size_format.dir_size_spec(
                node.children@[n - 1].stats,
            )
            &&& cur.lines == prev.lines
            &&& cur.seen == prev.seen
        }),
{
}

/// Exclusion: an excluded entry adds nothing to its parent's total, produces
/// no line and records no identity, whatever it contains.
pub proof fn lemma_excluded_contributes_nothing(
    cfg: TraversalConfig,
    node: Entry,
    n: nat,
    depth: nat,
    path: Seq<u8>,
    abs: Seq<u8>,
    seen: Set<(u64, u64)>,
)
    requires
        0 < n <= node.children@.len(),
        ({
            let child = node.children@[n - 1];
            cfg.exclusions.excludes(child.name@, join(abs, child.name@), child.is_dir)
        }),
    ensures
        scan(cfg, node, n, depth, path, abs, seen) == scan(
            cfg,
            node,
            (n - 1) as nat,
            depth,
            path,
            abs,
            seen,
        ),
{
}

/// Every line in `lines` reports at least `t`.
pub open spec fn all_at_least(lines: Seq<(nat, Seq<u8>)>, t: nat) -> bool {
    forall|k: int| 0 <= k < lines.len() ==> #[trigger] lines[k].0 >= t
}

proof fn lemma_all_at_least_concat(x: Seq<(nat, Seq<u8>)>, y: Seq<(nat, Seq<u8>)>, t: nat)
    requires
        all_at_least(x, t),
        all_at_least(y, t),
    ensures
        all_at_least(x + y, t),
{
    assert forall|k: int| 0 <= k < (x + y).len() implies #[trigger] (x + y)[k].0 >= t by {
        if k < x.len() {
            assert((x + y)[k] == x[k]);
        } else {
            assert((x + y)[k] == y[k - x.len()]);
        }
    }
}

/// Threshold filtering: no reported line is below the threshold.
pub proof fn lemma_lines_meet_threshold(
    cfg: TraversalConfig,
    node: Entry,
    n: nat,
    depth: nat,
    path: Seq<u8>,
    abs: Seq<u8>,
    seen: Set<(u64, u64)>,
)
    ensures
        all_at_least(scan(cfg, node, n, depth, path, abs, seen).lines, cfg.threshold as nat),
    decreases node, n,
{
    let t = cfg.threshold as nat;
    if n > 0 && n <= node.children@.len() {
        let prev = scan(cfg, node, (n - 1) as nat, depth, path, abs, seen);
        lemma_lines_meet_threshold(cfg, node, (n - 1) as nat, depth, path, abs, seen);
        let child = node.children@[n - 1];
        let cpath = join(path, child.name@);
        if !skipped(cfg, child, abs) && child.is_dir && !at_depth_limit(cfg, depth) {
            let sub = scan(
                cfg,
                child,
                child.children@.len(),
                next_depth(cfg, depth),
                cpath,
                join(abs, child.name@),
                prev.seen,
            );
            lemma_lines_meet_threshold(
                cfg,
                child,
                child.children@.len(),
                next_depth(cfg, depth),
                cpath,
                join(abs, child.name@),
                prev.seen,
            );
            let own = if !cfg.summarize && sub.total >= cfg.threshold {
                seq![(sub.total, cpath)]
            } else {
                seq![]
            };
            assert(all_at_least(own, t));
            lemma_all_at_least_concat(prev.lines, sub.lines, t);
            lemma_all_at_least_concat(prev.lines + sub.lines, own, t);
        } else if !skipped(cfg, child, abs) && !child.is_dir {
            let step = count_step(prev.seen, child.dev, child.ino, child.nlink, cfg.count_hard_links);
            let fsize = cfg.size_format.file_size_spec(child.stats) as nat;
            let own = if cfg.list_files && !cfg.summarize && fsize >= cfg.threshold {
                seq![(fsize, cpath)]
            } else {
                seq![]
            };
            assert(all_at_least(own, t));
            lemma_all_at_least_concat(prev.lines, own, t);
        }
    }
}

/// Two settings that differ at most in what is reported.
pub open spec fn same_accounting(a: TraversalConfig, b: TraversalConfig) -> bool {
    &&& a.max_depth == b.max_depth
    &&& a.root_dev == b.root_dev
    &&& a.exclusions == b.exclusions
    &&& a.size_format == b.size_format
    &&& a.count_hard_links == b.count_hard_links
}

/// Threshold filtering, the other half: the threshold, summarizing and
/// listing files change which lines are reported, never the total.
pub proof fn lemma_total_ignores_reporting(
    a: TraversalConfig,
    b: TraversalConfig,
    node: Entry,
    n: nat,
    depth: nat,
    path: Seq<u8>,
    abs: Seq<u8>,
    seen: Set<(u64, u64)>,
)
    requires
        same_accounting(a, b),
    ensures
        scan(a, node, n, depth, path, abs, seen).total == scan(b, node, n, depth, path, abs, seen).total,
        scan(a, node, n, depth, path, abs, seen).seen == scan(b, node, n, depth, path, abs, seen).seen,
    decreases node, n,
{
    if n > 0 && n <= node.children@.len() {
        let prev = scan(a, node, (n - 1) as nat, depth, path, abs, seen);
        lemma_total_ignores_reporting(a, b, node, (n - 1) as nat, depth, path, abs, seen);
        let child = node.children@[n - 1];
        if !skipped(a, child, abs) && child.is_dir && !at_depth_limit(a, depth) {
            lemma_total_ignores_reporting(
                a,
                b,
                child,
                child.children@.len(),
                next_depth(a, depth),
                join(path, child.name@),
                join(abs, child.name@),
                prev.seen,
            );
        }
    }
}

/// Threshold filtering for a whole walk: no reported line is below the
/// threshold, and the threshold, summarizing and listing files never change
/// the total.
pub proof fn lemma_walk_threshold(
    a: TraversalConfig,
    b: TraversalConfig,
    root: Entry,
    path: Seq<u8>,
    abs: Seq<u8>,
)
    requires
        same_accounting(a, b),
    ensures
        all_at_least(walk_spec(a, root, path, abs).lines, a.threshold as nat),
        walk_spec(a, root, path, abs).total == walk_spec(b, root, path, abs).total,
{
    let n = root.children@.len();
    lemma_lines_meet_threshold(a, root, n, 0, path, abs, Set::empty());
    lemma_total_ignores_reporting(a, b, root, n, 0, path, abs, Set::empty());
}

/// Two directories that the walk cannot tell apart: the same own `stat`, and
/// among their first `n` entries the same names and `stat` attributes, with
/// the same contents for each subdirectory that is entered. What lies inside
/// a directory met at the depth limit may differ freely.
pub open spec fn agree_to_limit(cfg: TraversalConfig, a: Entry, b: Entry, n: nat, depth: nat) -> bool
    decreases a, n,
{
    &&& a.stats == b.stats
    &&& a.children@.len() == b.children@.len()
    &&& (0 < n <= a.children@.len()) ==> {
        let ca = a.children@[n - 1];
        let cb = b.children@[n - 1];
        &&& agree_to_limit(cfg, a, b, (n - 1) as nat, depth)
        &&& ca.name@ == cb.name@
        &&& ca.stats == cb.stats
        &&& ca.dev == cb.dev
        &&& ca.ino == cb.ino
        &&& ca.nlink == cb.nlink
        &&& ca.is_dir == cb.is_dir
        &&& (ca.is_dir && !at_depth_limit(cfg, depth)) ==> agree_to_limit(
            cfg,
            ca,
            cb,
            ca.children@.len(),
            next_depth(cfg, depth),
        )
    }
}

/// Depth limiting: nothing inside a directory met at the depth limit is
/// counted or reported, so two trees that differ only there scan alike.
pub proof fn lemma_depth_cut(
    cfg: TraversalConfig,
    a: Entry,
    b: Entry,
    n: nat,
    depth: nat,
    path: Seq<u8>,
    abs: Seq<u8>,
    seen: Set<(u64, u64)>,
)
    requires
        agree_to_limit(cfg, a, b, n, depth),
    ensures
        scan(cfg, a, n, depth, path, abs, seen) == scan(cfg, b, n, depth, path, abs, seen),
    decreases a, n,
{
    if 0 < n <= a.children@.len() {
        let prev = scan(cfg, a, (n - 1) as nat, depth, path, abs, seen);
        lemma_depth_cut(cfg, a, b, (n - 1) as nat, depth, path, abs, seen);
        let ca = a.children@[n - 1];
        let cb = b.children@[n - 1];
        assert(ca.name@ == cb.name@ && ca.stats == cb.stats && ca.dev == cb.dev);
        assert(ca.is_dir == cb.is_dir && ca.ino == cb.ino && ca.nlink == cb.nlink);
        assert(skipped(cfg, ca, abs) == skipped(cfg, cb, abs));
        if ca.is_dir && !at_depth_limit(cfg, depth) {
            lemma_depth_cut(
                cfg,
                ca,
                cb,
                ca.children@.len(),
                next_depth(cfg, depth),
                join(path, ca.name@),
                join(abs, ca.name@),
                prev.seen,
            );
        }
    }
}

/// Depth limiting for a whole walk: two trees that differ only inside
/// directories met at the depth limit give the same total and lines.
pub proof fn lemma_walk_depth_cut(
    cfg: TraversalConfig,
    a: Entry,
    b: Entry,
    path: Seq<u8>,
    abs: Seq<u8>,
)
    requires
        a.dev == b.dev,
        agree_to_limit(cfg, a, b, a.children@.len(), 0),
    ensures
        walk_spec(cfg, a, path, abs) == walk_spec(cfg, b, path, abs),
{
    lemma_depth_cut(cfg, a, b, a.children@.len(), 0, path, abs, Set::empty());
}

/// A scan's first `n` steps read only the directory's own `stat` and its
/// first `n` entries.
proof fn lemma_scan_prefix(
    cfg: TraversalConfig,
    a: Entry,
    b: Entry,
    n: nat,
    depth: nat,
    path: Seq<u8>,
    abs: Seq<u8>,
    seen: Set<(u64, u64)>,
)
    requires
        a.stats == b.stats,
        n <= a.children@.len(),
        n <= b.children@.len(),
        a.children@.take(n as int) == b.children@.take(n as int),
    ensures
        scan(cfg, a, n, depth, path, abs, seen) == scan(cfg, b, n, depth, path, abs, seen),
    decreases n,
{
    if n > 0 {
        assert(a.children@.take(n - 1) == a.children@.take(n as int).take(n - 1));
        assert(b.children@.take(n - 1) == b.children@.take(n as int).take(n - 1));
        assert(a.children@[n - 1] == a.children@.take(n as int)[n - 1]);
        assert(b.children@[n - 1] == b.children@.take(n as int)[n - 1]);
        lemma_scan_prefix(cfg, a, b, (n - 1) as nat, depth, path, abs, seen);
    }
}

/// Exclusion: a directory holding an excluded entry scans exactly as the same
/// directory without that entry: the same total, the same lines and the same
/// identities, whatever the entry contains.
pub proof fn lemma_exclusion_removes_entry(
    cfg: TraversalConfig,
    a: Entry,
    b: Entry,
    i: nat,
    depth: nat,
    path: Seq<u8>,
    abs: Seq<u8>,
    seen: Set<(u64, u64)>,
)
    requires
        i < a.children@.len(),
        a.stats == b.stats,
        b.children@ == a.children@.remove(i as int),
        ({
            let child = a.children@[i as int];
            cfg.exclusions.excludes(child.name@, join(abs, child.name@), child.is_dir)
        }),
    ensures
        scan(cfg, a, a.children@.len(), depth, path, abs, seen) == scan(
            cfg,
            b,
            b.children@.len(),
            depth,
            path,
            abs,
            seen,
        ),
{
    lemma_removed_suffix(cfg, a, b, i, a.children@.len(), depth, path, abs, seen);
}

proof fn lemma_removed_suffix(
    cfg: TraversalConfig,
    a: Entry,
    b: Entry,
    i: nat,
    m: nat,
    depth: nat,
    path: Seq<u8>,
    abs: Seq<u8>,
    seen: Set<(u64, u64)>,
)
    requires
        i < m <= a.children@.len(),
        a.stats == b.stats,
        b.children@ == a.children@.remove(i as int),
        ({
            let child = a.children@[i as int];
            cfg.exclusions.excludes(child.name@, join(abs, child.name@), child.is_dir)
        }),
    ensures
        scan(cfg, a, m, depth, path, abs, seen) == scan(cfg, b, (m - 1) as nat, depth, path, abs, seen),
    decreases m,
{
    if m == i + 1 {
        assert(a.children@.take(i as int) =~= b.children@.take(i as int));
        lemma_scan_prefix(cfg, a, b, i, depth, path, abs, seen);
    } else {
        lemma_removed_suffix(cfg, a, b, i, (m - 1) as nat, depth, path, abs, seen);
        assert(b.children@[m - 2] == a.children@[m - 1]);
    }
}

/// No hard-linked file under `node`'s first `n` entries has identity `id`.
pub open spec fn free_of(id: (u64, u64), node: Entry, n: nat) -> bool
    decreases node, n,
{
    (0 < n <= node.children@.len()) ==> {
        let child = node.children@[n - 1];
        &&& free_of(id, node, (n - 1) as nat)
        &&& child.is_dir ==> free_of(id, child, child.children@.len())
        &&& (!child.is_dir && child.nlink > 1) ==> (child.dev, child.ino) != id
    }
}

proof fn lemma_free_of_entry(id: (u64, u64), node: Entry, n: nat, k: nat)
    requires
        free_of(id, node, n),
        k < n <= node.children@.len(),
    ensures
        free_of(id, node, k),
        ({
            let child = node.children@[k as int];
            &&& child.is_dir ==> free_of(id, child, child.children@.len())
            &&& (!child.is_dir && child.nlink > 1) ==> (child.dev, child.ino) != id
        }),
    decreases n,
{
    if k + 1 < n {
        lemma_free_of_entry(id, node, (n - 1) as nat, k);
    }
}

/// A scan that starts out knowing an identity that nothing it reads carries
/// counts the same and ends knowing that identity as well.
proof fn lemma_scan_extra_identity(
    cfg: TraversalConfig,
    node: Entry,
    n: nat,
    depth: nat,
    path: Seq<u8>,
    abs: Seq<u8>,
    seen: Set<(u64, u64)>,
    id: (u64, u64),
)
    requires
        free_of(id, node, n),
    ensures
        scan(cfg, node, n, depth, path, abs, seen.insert(id)).total == scan(
            cfg,
            node,
            n,
            depth,
            path,
            abs,
            seen,
        ).total,
        scan(cfg, node, n, depth, path, abs, seen.insert(id)).seen == scan(
            cfg,
            node,
            n,
            depth,
            path,
            abs,
            seen,
        ).seen.insert(id),
        !seen.contains(id) ==> !scan(cfg, node, n, depth, path, abs, seen).seen.contains(id),
    decreases node, n,
{
    if 0 < n <= node.children@.len() {
        let p1 = scan(cfg, node, (n - 1) as nat, depth, path, abs, seen);
        let p2 = scan(cfg, node, (n - 1) as nat, depth, path, abs, seen.insert(id));
        lemma_scan_extra_identity(cfg, node, (n - 1) as nat, depth, path, abs, seen, id);
        let child = node.children@[n - 1];
        if !skipped(cfg, child, abs) {
            if child.is_dir {
                if !at_depth_limit(cfg, depth) {
                    lemma_scan_extra_identity(
                        cfg,
                        child,
                        child.children@.len(),
                        next_depth(cfg, depth),
                        join(path, child.name@),
                        join(abs, child.name@),
                        p1.seen,
                        id,
                    );
                }
            } else if !cfg.count_hard_links && child.nlink > 1 {
                let k = (child.dev, child.ino);
                assert(p2.seen.insert(k) =~= p1.seen.insert(k).insert(id));
            }
        }
    }
}

/// Under link counting the identities seen never change.
proof fn lemma_counting_keeps_identities(
    cfg: TraversalConfig,
    node: Entry,
    n: nat,
    depth: nat,
    path: Seq<u8>,
    abs: Seq<u8>,
    seen: Set<(u64, u64)>,
)
    requires
        cfg.count_hard_links,
    ensures
        scan(cfg, node, n, depth, path, abs, seen).seen == seen,
    decreases node, n,
{
    if 0 < n <= node.children@.len() {
        let prev = scan(cfg, node, (n - 1) as nat, depth, path, abs, seen);
        lemma_counting_keeps_identities(cfg, node, (n - 1) as nat, depth, path, abs, seen);
        let child = node.children@[n - 1];
        if !skipped(cfg, child, abs) && child.is_dir && !at_depth_limit(cfg, depth) {
            lemma_counting_keeps_identities(
                cfg,
                child,
                child.children@.len(),
                next_depth(cfg, depth),
                join(path, child.name@),
                join(abs, child.name@),
                prev.seen,
            );
        }
    }
}

/// Two links `i < j` of one hard-linked file, both read by the scan.
pub open spec fn link_pair(cfg: TraversalConfig, a: Entry, i: nat, j: nat, abs: Seq<u8>) -> bool {
    let f1 = a.children@[i as int];
    let f2 = a.children@[j as int];
    &&& i < j < a.children@.len()
    &&& !f1.is_dir && !f2.is_dir
    &&& f1.nlink > 1 && f2.nlink > 1
    &&& f1.dev == f2.dev && f1.ino == f2.ino
    &&& !skipped(cfg, f1, abs) && !skipped(cfg, f2, abs)
}

proof fn lemma_pair_steps(
    cfg: TraversalConfig,
    a: Entry,
    b: Entry,
    i: nat,
    j: nat,
    m: nat,
    depth: nat,
    path: Seq<u8>,
    abs: Seq<u8>,
    seen: Set<(u64, u64)>,
)
    requires
        link_pair(cfg, a, i, j, abs),
        a.stats == b.stats,
        b.children@ == a.children@.remove(j as int).remove(i as int),
        m <= a.children@.len(),
        !cfg.count_hard_links ==> {
            &&& !seen.contains((a.children@[i as int].dev, a.children@[i as int].ino))
            &&& free_of(
                (a.children@[i as int].dev, a.children@[i as int].ino),
                b,
                b.children@.len(),
            )
        },
    ensures
        ({
            let id = (a.children@[i as int].dev, a.children@[i as int].ino);
            let n1 = cfg.size_format.file_size_spec(a.children@[i as int].stats) as nat;
            let n2 = cfg.size_format.file_size_spec(a.children@[j as int].stats) as nat;
            let added = if cfg.count_hard_links {
                n1 + n2
            } else {
                n1
            };
            let sa = scan(cfg, a, m, depth, path, abs, seen);
            &&& m <= i ==> sa.total == scan(cfg, b, m, depth, path, abs, seen).total && sa.seen
                == scan(cfg, b, m, depth, path, abs, seen).seen
            &&& i < m <= j ==> {
                let sb = scan(cfg, b, (m - 1) as nat, depth, path, abs, seen);
                &&& sa.total == sb.total + n1
                &&& cfg.count_hard_links ==> sa.seen == sb.seen
                &&& !cfg.count_hard_links ==> sa.seen == sb.seen.insert(id) && !sb.seen.contains(id)
            }
            &&& j < m ==> {
                let sb = scan(cfg, b, (m - 2) as nat, depth, path, abs, seen);
                &&& sa.total == sb.total + added
                &&& cfg.count_hard_links ==> sa.seen == sb.seen
                &&& !cfg.count_hard_links ==> sa.seen == sb.seen.insert(id) && !sb.seen.contains(id)
            }
        }),
    decreases m,
{
    let id = (a.children@[i as int].dev, a.children@[i as int].ino);
    let blen = b.children@.len();
    if m <= i {
        assert(a.children@.take(m as int) =~= b.children@.take(m as int));
        lemma_scan_prefix(cfg, a, b, m, depth, path, abs, seen);
    } else {
        lemma_pair_steps(cfg, a, b, i, j, (m - 1) as nat, depth, path, abs, seen);
        let child = a.children@[m - 1];
        if m == i + 1 || m == j + 1 {
            if cfg.count_hard_links {
                let bm = if m == i + 1 { i } else { (m - 2) as nat };
                lemma_counting_keeps_identities(cfg, b, bm, depth, path, abs, seen);
            } else {
                if m == i + 1 {
                    assert(b.children@.len() >= i);
                    lemma_free_prefix(id, b, blen, i);
                    lemma_scan_extra_identity(cfg, b, i, depth, path, abs, seen, id);
                } else {
                    let sb = scan(cfg, b, (m - 2) as nat, depth, path, abs, seen).seen;
                    assert(sb.insert(id).insert(id) =~= sb.insert(id));
                }
            }
        } else {
            let k: int = if m - 1 < j {
                m - 2
            } else {
                m - 3
            };
            assert(b.children@[k] == child);
            let sb_prev = scan(cfg, b, k as nat, depth, path, abs, seen);
            if !cfg.count_hard_links {
                lemma_free_prefix(id, b, blen, (k + 1) as nat);
                lemma_free_of_entry(id, b, blen, k as nat);
                if !skipped(cfg, child, abs) && child.is_dir && !at_depth_limit(cfg, depth) {
                    lemma_scan_extra_identity(
                        cfg,
                        child,
                        child.children@.len(),
                        next_depth(cfg, depth),
                        join(path, child.name@),
                        join(abs, child.name@),
                        sb_prev.seen,
                        id,
                    );
                } else if !skipped(cfg, child, abs) && !child.is_dir && child.nlink > 1 {
                    let kk = (child.dev, child.ino);
                    assert(sb_prev.seen.insert(id).insert(kk) =~= sb_prev.seen.insert(kk).insert(id));
                }
            } else {
                if !skipped(cfg, child, abs) && child.is_dir && !at_depth_limit(cfg, depth) {
                    lemma_counting_keeps_identities(
                        cfg,
                        child,
                        child.children@.len(),
                        next_depth(cfg, depth),
                        join(path, child.name@),
                        join(abs, child.name@),
                        sb_prev.seen,
                    );
                }
            }
        }
    }
}

proof fn lemma_free_prefix(id: (u64, u64), node: Entry, n: nat, k: nat)
    requires
        free_of(id, node, n),
        k <= n <= node.children@.len(),
    ensures
        free_of(id, node, k),
    decreases n,
{
    if k < n {
        lemma_free_prefix(id, node, (n - 1) as nat, k);
    }
}

/// Hard-link deduplication in a directory: holding two links of one file
/// adds that file's size once to the directory's total when links are
/// deduplicated (and nothing else under it carries that identity), and each
/// link's size when every link counts.
pub proof fn lemma_hard_link_pair(
    cfg: TraversalConfig,
    a: Entry,
    b: Entry,
    i: nat,
    j: nat,
    depth: nat,
    path: Seq<u8>,
    abs: Seq<u8>,
    seen: Set<(u64, u64)>,
)
    requires
        link_pair(cfg, a, i, j, abs),
        a.stats == b.stats,
        b.children@ == a.children@.remove(j as int).remove(i as int),
        !cfg.count_hard_links ==> {
            &&& !seen.contains((a.children@[i as int].dev, a.children@[i as int].ino))
            &&& free_of(
                (a.children@[i as int].dev, a.children@[i as int].ino),
                b,
                b.children@.len(),
            )
        },
    ensures
        ({
            let n1 = cfg.size_format.file_size_spec(a.children@[i as int].stats) as nat;
            let n2 = cfg.size_format.file_size_spec(a.children@[j as int].stats) as nat;
            let ta = scan(cfg, a, a.children@.len(), depth, path, abs, seen).total;
            let tb = scan(cfg, b, b.children@.len(), depth, path, abs, seen).total;
            &&& !cfg.count_hard_links ==> ta == tb + n1
            &&& cfg.count_hard_links ==> ta == tb + n1 + n2
        }),
{
    lemma_pair_steps(cfg, a, b, i, j, a.children@.len(), depth, path, abs, seen);
}

/// Hard-link deduplication for a whole walk: two links of one file directly
/// under the root add its size once when links are deduplicated (and nothing
/// else in the tree carries that identity), and each link's size when every
/// link counts.
pub proof fn lemma_walk_hard_link_pair(
    cfg: TraversalConfig,
    a: Entry,
    b: Entry,
    i: nat,
    j: nat,
    path: Seq<u8>,
    abs: Seq<u8>,
)
    requires
        link_pair(cfg, a, i, j, abs),
        a.stats == b.stats,
        a.dev == b.dev,
        b.children@ == a.children@.remove(j as int).remove(i as int),
        !cfg.count_hard_links ==> free_of(
            (a.children@[i as int].dev, a.children@[i as int].ino),
            b,
            b.children@.len(),
        ),
    ensures
        ({
            let n1 = cfg.size_format.file_size_spec(a.children@[i as int].stats) as nat;
            let n2 = cfg.size_format.file_size_spec(a.children@[j as int].stats) as nat;
            let ta = walk_spec(cfg, a, path, abs).total;
            let tb = walk_spec(cfg, b, path, abs).total;
            &&& (cfg.root_dev is None || a.dev == cfg.root_dev.unwrap()) ==> {
                &&& !cfg.count_hard_links ==> ta == tb + n1
                &&& cfg.count_hard_links ==> ta == tb + n1 + n2
            }
        }),
{
    lemma_hard_link_pair(cfg, a, b, i, j, 0, path, abs, Set::empty());
}

} // verus!
