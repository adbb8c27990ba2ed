//! Decisions made once per run: the accounting unit, the threshold in that
//! unit, how sizes are rendered, and how the root and the total are labelled.
use vstd::prelude::*;
use crate::size::SizeFormat;
use crate::format::{BlockSize, OutputMode, line_text, render_line, size_text};
use crate::walk::{Line, lines_view};
use crate::threshold::{trim, trim_bounds};
use crate::exclude::slice_from;
use crate::format::append_bytes;

verus! {

/// The accounting unit: allocated bytes under an explicit block size or
/// human-readable output, apparent bytes under `-b`, else 1K blocks.
pub open spec fn size_format_for(bytes: bool, human: bool, has_block_size: bool) -> SizeFormat {
    if has_block_size {
        SizeFormat::HumanReadable
    } else if bytes {
        SizeFormat::Bytes
    } else if human {
        SizeFormat::HumanReadable
    } else {
        SizeFormat::Blocks
    }
}

pub fn select_size_format(bytes: bool, human: bool, has_block_size: bool) -> (r: SizeFormat)
    ensures
        r == size_format_for(bytes, human, has_block_size),
{
    if has_block_size {
        SizeFormat::HumanReadable
    } else if bytes {
        SizeFormat::Bytes
    } else if human {
        SizeFormat::HumanReadable
    } else {
        SizeFormat::Blocks
    }
}

/// A threshold given in bytes, in the unit of `f`; a negative one is 0.
pub open spec fn threshold_units(threshold_bytes: i64, f: SizeFormat) -> u64 {
    if threshold_bytes <= 0 {
        0
    } else {
        match f {
            SizeFormat::Blocks => (threshold_bytes / 1024) as u64,
            _ => threshold_bytes as u64,
        }
    }
}

pub fn threshold_in_units(threshold_bytes: i64, f: SizeFormat) -> (r: u64)
    ensures
        r == threshold_units(threshold_bytes, f),
{
    if threshold_bytes <= 0 {
        0
    } else {
        match f {
            SizeFormat::Blocks => (threshold_bytes / 1024) as u64,
            _ => threshold_bytes as u64,
        }
    }
}

/// Sizes are quantized under an explicit block size, else human-readable
/// when asked, else printed verbatim.
pub fn output_mode(human: bool, block_size: Option<BlockSize>) -> (r: OutputMode)
    ensures
        r == (match block_size {
            Some(bs) => OutputMode::Block(bs),
            None => if human {
                OutputMode::Human
            } else {
                OutputMode::Raw
            },
        }),
{
    match block_size {
        Some(bs) => OutputMode::Block(bs),
        None => if human {
            OutputMode::Human
        } else {
            OutputMode::Raw
        },
    }
}

/// Index of the first `/` in `s`, or its length.
pub open spec fn slash_index(s: Seq<u8>) -> nat
    decreases s.len(),
{
    if s.len() == 0 || s[0] == 47 {
        0
    } else {
        1 + slash_index(s.skip(1))
    }
}

/// The pieces of `s` between slashes, empty ones included.
pub open spec fn segments(s: Seq<u8>) -> Seq<Seq<u8>>
    decreases s.len(),
{
    let i = slash_index(s);
    if i >= s.len() {
        seq![s]
    } else {
        seq![s.take(i as int)] + segments(s.skip(i + 1 as int))
    }
}

/// The named components among `segs`: neither empty nor `.`.
pub open spec fn named(segs: Seq<Seq<u8>>) -> Seq<Seq<u8>>
    decreases segs.len(),
{
    if segs.len() == 0 {
        seq![]
    } else {
        let first = segs[0];
        (if first.len() > 0 && first != seq![46u8] {
            seq![first]
        } else {
            seq![]
        }) + named(segs.skip(1))
    }
}

/// How a path starts: at the root (1), at a leading `.` component (2), or
/// with a named component (0).
pub open spec fn path_start(s: Seq<u8>) -> u8 {
    if s.len() > 0 && s[0] == 47 {
        1
    } else if segments(s)[0] == seq![46u8] {
        2
    } else {
        0
    }
}

/// Two paths with the same components: repeated and trailing slashes and
/// `.` components after the first are not components.
pub open spec fn same_path(a: Seq<u8>, b: Seq<u8>) -> bool {
    path_start(a) == path_start(b) && named(segments(a)) == named(segments(b))
}

/// How the root is displayed: `.` when it is the working directory, else
/// the path as given.
pub open spec fn root_display(root: Seq<u8>, cwd: Seq<u8>) -> Seq<u8> {
    if same_path(root, cwd) || root == seq![46u8] {
        seq![46u8]
    } else {
        root
    }
}

pub open spec fn views(v: Seq<Vec<u8>>) -> Seq<Seq<u8>> {
    v.map_values(|x: Vec<u8>| x@)
}

/// The named components of `s`, in order.
fn named_components(s: &[u8]) -> (r: Vec<Vec<u8>>)
    ensures
        views(r@) == named(segments(s@)),
{
    let ghost whole = s@;
    let len = s.len();
    let mut out: Vec<Vec<u8>> = Vec::new();
    let mut pos: usize = 0;
    let mut done = false;
    assert(whole.subrange(0, len as int) == whole);
    assert(views(out@) =~= Seq::<Seq<u8>>::empty());
    while !done
        invariant
            pos <= len,
            len == whole.len(),
            whole == s@,
            !done ==> named(segments(whole)) == views(out@) + named(
                segments(whole.subrange(pos as int, len as int)),
            ),
            done ==> named(segments(whole)) == views(out@),
        decreases len - pos + if done {
            0int
        } else {
            1int
        },
    {
        let ghost t = whole.subrange(pos as int, len as int);
        let mut j: usize = pos;
        assert(t.skip(0) == t);
        while j < len && s[j] != 47u8
            invariant
                pos <= j <= len,
                len == whole.len(),
                whole == s@,
                t == whole.subrange(pos as int, len as int),
                slash_index(t) == (j - pos) + slash_index(t.skip(j - pos)),
            decreases len - j,
        {
            assert(t.skip(j - pos).skip(1) == t.skip(j - pos + 1));
            j += 1;
        }
        assert(slash_index(t.skip(j - pos)) == 0);
        let seg = slice_range(s, pos, j);
        assert(seg@ == t.take(j - pos));
        let keep = seg.len() > 0 && !(seg.len() == 1 && seg[0] == 46u8);
        assert(keep == (seg@.len() > 0 && seg@ != seq![46u8])) by {
            if seg@.len() == 1 {
                assert(seg@ == seq![seg@[0]]);
            }
        }
        let ghost rest = if j >= len {
            Seq::<Seq<u8>>::empty()
        } else {
            segments(t.skip(j - pos + 1))
        };
        assert(segments(t) == seq![seg@] + rest) by {
            if j >= len {
                assert(t.take(j - pos) == t);
            }
        }
        assert((seq![seg@] + rest)[0] == seg@);
        assert((seq![seg@] + rest).skip(1) == rest);
        let ghost before = views(out@);
        if keep {
            out.push(seg);
            assert(views(out@) == before + seq![seg@]);
        }
        if j >= len {
            assert(named(rest) == Seq::<Seq<u8>>::empty());
            done = true;
        } else {
            assert(t.skip(j - pos + 1) == whole.subrange(j + 1, len as int));
            pos = j + 1;
        }
    }
    out
}

fn start_kind(s: &[u8]) -> (r: u8)
    ensures
        r == path_start(s@),
{
    if s.len() > 0 && s[0] == 47u8 {
        return 1;
    }
    let ghost t = s@;
    proof {
        if t.len() == 0 {
            assert(segments(t)[0] == t);
        } else if t.len() == 1 {
            assert(t.skip(1).len() == 0);
            assert(slash_index(t.skip(1)) == 0);
            assert(slash_index(t) == 1);
            assert(segments(t)[0] == t);
            assert(t == seq![t[0]]);
            if t[0] == 46 {
                assert(seq![t[0]] =~= seq![46u8]);
            } else {
                assert(seq![t[0]][0] != seq![46u8][0]);
            }
        } else {
            let u = t.skip(1);
            assert(u[0] == t[1]);
            if t[1] == 47 {
                assert(slash_index(u) == 0);
                assert(slash_index(t) == 1);
                assert(segments(t)[0] == t.take(1));
                assert(t.take(1) == seq![t[0]]);
                if t[0] == 46 {
                    assert(seq![t[0]] =~= seq![46u8]);
                } else {
                    assert(seq![t[0]][0] != seq![46u8][0]);
                }
            } else {
                assert(slash_index(u) == 1 + slash_index(u.skip(1)));
                assert(slash_index(t) >= 2);
                let first = segments(t)[0];
                assert(first.len() >= 2);
                assert(first.len() != seq![46u8].len());
            }
        }
    }
    if (s.len() == 1 && s[0] == 46u8) || (s.len() >= 2 && s[0] == 46u8 && s[1] == 47u8) {
        2
    } else {
        0
    }
}

fn slice_range(s: &[u8], lo: usize, hi: usize) -> (r: Vec<u8>)
    requires
        lo <= hi <= s@.len(),
    ensures
        r@ == s@.subrange(lo as int, hi as int),
{
    let mut r: Vec<u8> = Vec::new();
    let mut i: usize = lo;
    while i < hi
        invariant
            lo <= i <= hi <= s@.len(),
            r@ == s@.subrange(lo as int, i as int),
        decreases hi - i,
    {
        r.push(s[i]);
        i += 1;
    }
    r
}

fn bytes_equal(a: &[u8], b: &[u8]) -> (r: bool)
    ensures
        r == (a@ == b@),
{
    if a.len() != b.len() {
        return false;
    }
    let mut i: usize = 0;
    while i < a.len()
        invariant
            i <= a@.len(),
            a@.len() == b@.len(),
            forall|j: int| 0 <= j < i ==> a@[j] == b@[j],
        decreases a@.len() - i,
    {
        if a[i] != b[i] {
            return false;
        }
        i += 1;
    }
    assert(a@ =~= b@);
    true
}

fn same_components(a: &Vec<Vec<u8>>, b: &Vec<Vec<u8>>) -> (r: bool)
    ensures
        r == (views(a@) == views(b@)),
{
    if a.len() != b.len() {
        assert(views(a@).len() != views(b@).len());
        return false;
    }
    let mut i: usize = 0;
    while i < a.len()
        invariant
            i <= a@.len(),
            a@.len() == b@.len(),
            forall|k: int| 0 <= k < i ==> a@[k]@ == b@[k]@,
        decreases a@.len() - i,
    {
        if !bytes_equal(a[i].as_slice(), b[i].as_slice()) {
            assert(views(a@)[i as int] != views(b@)[i as int]);
            return false;
        }
        i += 1;
    }
    assert(views(a@) =~= views(b@));
    true
}

pub fn display_root(root: &[u8], cwd: &[u8]) -> (r: Vec<u8>)
    ensures
        r@ == root_display(root@, cwd@),
{
    let dot: [u8; 1] = [46u8];
    let same = start_kind(root) == start_kind(cwd) && same_components(
        &named_components(root),
        &named_components(cwd),
    );
    if same || bytes_equal(root, dot.as_slice()) {
        let mut r: Vec<u8> = Vec::new();
        r.push(46u8);
        assert(r@ =~= seq![46u8]);
        r
    } else {
        slice_from(root, 0)
    }
}

/// Label of the final line: the root when summarizing, `total` when a grand
/// total is asked for, else the root.
pub open spec fn total_label_for(summarize: bool, total: bool, root: Seq<u8>) -> Seq<u8> {
    if !summarize && total {
        seq![116u8, 111u8, 116u8, 97u8, 108u8]
    } else {
        root
    }
}

pub fn total_label(summarize: bool, total: bool, root: &[u8]) -> (r: Vec<u8>)
    ensures
        r@ == total_label_for(summarize, total, root@),
{
    if !summarize && total {
        let r: Vec<u8> = vec![116u8, 111u8, 116u8, 97u8, 108u8];
        assert(r@ =~= seq![116u8, 111u8, 116u8, 97u8, 108u8]);
        r
    } else {
        slice_from(root, 0)
    }
}

/// The extension that a line of an exclusion file names: the trimmed line
/// starts with `*.` and the rest is the extension.
pub open spec fn pattern_of(line: Seq<u8>) -> Option<Seq<u8>> {
    let t = trim(line);
    if t.len() >= 2 && t[0] == 42 && t[1] == 46 {
        Some(t.skip(2))
    } else {
        None
    }
}

pub fn exclusion_pattern(line: &[u8]) -> (r: Option<Vec<u8>>)
    ensures
        match pattern_of(line@) {
            Some(p) => r is Some && r.unwrap()@ == p,
            None => r is None,
        },
{
    let (lo, hi) = trim_bounds(line);
    if hi - lo >= 2 && line[lo] == 42u8 && line[lo + 1] == 46u8 {
        let mut r: Vec<u8> = Vec::new();
        let mut i: usize = lo + 2;
        while i < hi
            invariant
                lo + 2 <= i <= hi <= line@.len(),
                r@ == line@.subrange(lo + 2, i as int),
            decreases hi - i,
        {
            r.push(line[i]);
            i += 1;
        }
        assert(r@ == trim(line@).skip(2));
        Some(r)
    } else {
        None
    }
}

/// A line of an exclusion file, trimmed.
pub fn trimmed(line: &[u8]) -> (r: Vec<u8>)
    ensures
        r@ == trim(line@),
{
    let (lo, hi) = trim_bounds(line);
    let mut r: Vec<u8> = Vec::new();
    let mut i: usize = lo;
    while i < hi
        invariant
            lo <= i <= hi <= line@.len(),
            r@ == line@.subrange(lo as int, i as int),
        decreases hi - i,
    {
        r.push(line[i]);
        i += 1;
    }
    r
}

/// Text of the reported lines, each rendered under `mode`, in order.
pub open spec fn lines_text(lines: Seq<(nat, Seq<u8>)>, mode: OutputMode) -> Seq<u8>
    decreases lines.len(),
{
    if lines.len() == 0 {
        Seq::empty()
    } else {
        let l = lines.last();
        lines_text(lines.drop_last(), mode) + line_text(size_text(l.0, mode), l.1)
    }
}

/// The whole output of a run: every reported line, then the final line with
/// the total and its label.
pub fn render_report(lines: &Vec<Line>, total: u64, label: &[u8], mode: OutputMode) -> (r: Vec<u8>)
    requires
        mode.wf(),
    ensures
        r@ == lines_text(lines_view(lines@), mode) + line_text(size_text(total as nat, mode), label@),
{
    let mut r: Vec<u8> = Vec::new();
    let mut i: usize = 0;
    while i < lines.len()
        invariant
            i <= lines@.len(),
            mode.wf(),
            r@ == lines_text(lines_view(lines@.take(i as int)), mode),
        decreases lines@.len() - i,
    {
        let l = render_line(lines[i].size, lines[i].path.as_slice(), mode);
        append_bytes(&mut r, l.as_slice());
        assert(lines_view(lines@.take(i + 1 as int)).drop_last() =~= lines_view(lines@.take(i as int)));
        i += 1;
    }
    assert(lines@.take(i as int) == lines@);
    let last = render_line(total, label, mode);
    append_bytes(&mut r, last.as_slice());
    r
}

} // verus!
