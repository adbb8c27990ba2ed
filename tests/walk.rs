use du_rs::exclude::ExclusionRules;
use du_rs::format::{parse_block_size, OutputMode};
use du_rs::report::{display_root, output_mode, render_report, select_size_format, total_label};
use du_rs::size::{FileStats, SizeFormat};
use du_rs::walk::{walk, Entry, Line, TraversalConfig};

fn file(name: &str, size: u64, blocks: u64) -> Entry {
    Entry {
        name: name.as_bytes().to_vec(),
        stats: FileStats::new(size, blocks),
        dev: 1,
        ino: 0,
        nlink: 1,
        is_dir: false,
        children: Vec::new(),
    }
}

fn linked(name: &str, size: u64, blocks: u64, ino: u64) -> Entry {
    let mut e = file(name, size, blocks);
    e.ino = ino;
    e.nlink = 2;
    e
}

fn dir(name: &str, blocks: u64, children: Vec<Entry>) -> Entry {
    Entry {
        name: name.as_bytes().to_vec(),
        stats: FileStats::new(4096, blocks),
        dev: 1,
        ino: 0,
        nlink: 2,
        is_dir: true,
        children,
    }
}

fn config(size_format: SizeFormat) -> TraversalConfig {
    TraversalConfig {
        max_depth: 0,
        root_dev: None,
        exclusions: ExclusionRules::new(),
        size_format,
        threshold: 0,
        summarize: false,
        list_files: false,
        count_hard_links: false,
    }
}

fn line_strings(lines: &[Line]) -> Vec<(u64, String)> {
    lines
        .iter()
        .map(|l| (l.size, String::from_utf8(l.path.clone()).unwrap()))
        .collect()
}

/// The tree that `du` sees after writing "hello", "world" and "test" into
/// three files on a filesystem with 4K blocks.
fn test_env() -> Entry {
    dir(
        "test_env",
        8,
        vec![
            file("test2.txt", 5, 8),
            file("test.txt", 6, 8),
            dir("test_dir2", 8, vec![file("test.txt", 6, 8)]),
            dir("test1", 8, vec![]),
        ],
    )
}

fn run_test_env(args: &[&str]) -> String {
    let mut human = false;
    let mut bytes = false;
    let mut all = false;
    let mut block = None;
    for a in args {
        match *a {
            "-ah" => {
                all = true;
                human = true;
            }
            "-a" => all = true,
            "-b" => bytes = true,
            "-h" => human = true,
            _ => block = Some(parse_block_size(a.as_bytes()).unwrap()),
        }
    }
    let mut cfg = config(select_size_format(bytes, human, block.is_some()));
    cfg.list_files = all;
    let root = display_root(b"test_env", b"/work");
    let (total, lines) = walk(&cfg, &test_env(), &root, b"/work/test_env");
    let mode = output_mode(human, block);
    let label = total_label(false, false, &root);
    String::from_utf8(render_report(&lines, total, &label, mode)).unwrap()
}

#[test]
fn test_du_ah() {
    let expected_output = "\
4.0K       test_env/test2.txt
4.0K       test_env/test.txt
4.0K       test_env/test_dir2/test.txt
8.0K       test_env/test_dir2
4.0K       test_env/test1
24.0K      test_env
";
    assert_eq!(run_test_env(&["-ah"]).trim(), expected_output.trim());
}

#[test]
fn test_du_no_args() {
    let expected_output = "\
8          test_env/test_dir2
4          test_env/test1
24         test_env
";
    assert_eq!(run_test_env(&[]).trim(), expected_output.trim());
}

#[test]
fn test_du_a() {
    let expected_output = "\
4          test_env/test2.txt
4          test_env/test.txt
4          test_env/test_dir2/test.txt
8          test_env/test_dir2
4          test_env/test1
24         test_env
";
    assert_eq!(run_test_env(&["-a"]).trim(), expected_output.trim());
}

#[test]
fn test_du_b() {
    let expected_output = "\
6          test_env/test_dir2
0          test_env/test1
17         test_env
";
    assert_eq!(run_test_env(&["-b"]).trim(), expected_output.trim());
}

#[test]
fn test_du_b_a() {
    let expected_output = "\
5          test_env/test2.txt
6          test_env/test.txt
6          test_env/test_dir2/test.txt
6          test_env/test_dir2
0          test_env/test1
17         test_env
";
    assert_eq!(run_test_env(&["-b", "-a"]).trim(), expected_output.trim());
}

#[test]
fn block_k_lines_on_test_env() {
    let out = run_test_env(&["-BK"]);
    assert_eq!(out, "8K         test_env/test_dir2\n4K         test_env/test1\n24K        test_env\n");
}

/// root/{a.txt, sub/{b.txt}}, two 4096-byte files in 4096-byte blocks.
fn small_tree() -> Entry {
    dir("root", 0, vec![file("a.txt", 4096, 8), dir("sub", 0, vec![file("b.txt", 4096, 8)])])
}

#[test]
fn blocks_scenario_lines() {
    let cfg = config(SizeFormat::Blocks);
    let (total, lines) = walk(&cfg, &small_tree(), b"root", b"/root");
    assert_eq!(total, 8);
    assert_eq!(line_strings(&lines), vec![(4, "root/sub".to_string())]);
    let out = render_report(&lines, total, b"root", OutputMode::Raw);
    assert_eq!(String::from_utf8(out).unwrap(), "4          root/sub\n8          root\n");
}

#[test]
fn block_m_scenario_rounds_up() {
    let bs = parse_block_size(b"-BM").unwrap();
    let cfg = config(select_size_format(false, false, true));
    let (total, lines) = walk(&cfg, &small_tree(), b"root", b"/root");
    assert_eq!(total, 8192);
    let out = render_report(&lines, total, b"root", output_mode(false, Some(bs)));
    assert_eq!(String::from_utf8(out).unwrap(), "1M         root/sub\n1M         root\n");
}

#[test]
fn block_1024_scenario_counts_units() {
    let bs = parse_block_size(b"-B1024").unwrap();
    let cfg = config(select_size_format(false, false, true));
    let tree = dir("root", 0, vec![file("a", 8192, 16)]);
    let (total, lines) = walk(&cfg, &tree, b"root", b"/root");
    assert_eq!(total, 8192);
    let out = render_report(&lines, total, b"root", output_mode(false, Some(bs)));
    assert_eq!(String::from_utf8(out).unwrap(), "8          root\n");
}

#[test]
fn conservation_sums_every_entry() {
    let tree = dir(
        "r",
        8,
        vec![file("x", 100, 8), dir("d", 8, vec![file("y", 5000, 16), dir("e", 8, vec![])])],
    );
    let (blocks, _) = walk(&config(SizeFormat::Blocks), &tree, b"r", b"/r");
    assert_eq!(blocks, 4 + 4 + 4 + 8 + 4);
    let (human, _) = walk(&config(SizeFormat::HumanReadable), &tree, b"r", b"/r");
    assert_eq!(human, 4096 * 6);
    let (apparent, _) = walk(&config(SizeFormat::Bytes), &tree, b"r", b"/r");
    assert_eq!(apparent, 5100);
}

#[test]
fn walking_twice_gives_the_same_output() {
    let mut cfg = config(SizeFormat::Blocks);
    cfg.list_files = true;
    let tree = dir("r", 8, vec![linked("a", 10, 8, 7), linked("b", 10, 8, 7)]);
    let (t1, l1) = walk(&cfg, &tree, b"r", b"/r");
    let (t2, l2) = walk(&cfg, &tree, b"r", b"/r");
    assert_eq!(t1, t2);
    assert_eq!(line_strings(&l1), line_strings(&l2));
}

#[test]
fn hard_links_counted_once_or_every_time() {
    let tree = dir("r", 0, vec![linked("a", 4096, 8, 9), linked("b", 4096, 8, 9)]);
    let mut cfg = config(SizeFormat::Bytes);
    let (once, _) = walk(&cfg, &tree, b"r", b"/r");
    assert_eq!(once, 4096);
    cfg.count_hard_links = true;
    let (twice, _) = walk(&cfg, &tree, b"r", b"/r");
    assert_eq!(twice, 8192);
}

#[test]
fn hard_link_on_other_inode_counts_separately() {
    let tree = dir("r", 0, vec![linked("a", 10, 8, 1), linked("b", 10, 8, 2)]);
    let (total, _) = walk(&config(SizeFormat::Bytes), &tree, b"r", b"/r");
    assert_eq!(total, 20);
}

#[test]
fn depth_limit_cuts_descent_but_keeps_boundary_size() {
    let tree = dir(
        "r",
        0,
        vec![dir("d1", 8, vec![dir("d2", 8, vec![dir("d3", 8, vec![file("f", 1, 800)])])])],
    );
    let mut cfg = config(SizeFormat::Blocks);
    cfg.max_depth = 1;
    cfg.list_files = true;
    let (total, lines) = walk(&cfg, &tree, b"r", b"/r");
    assert_eq!(line_strings(&lines), vec![(8, "r/d1".to_string())]);
    assert_eq!(total, 8);
    cfg.max_depth = 0;
    let (full, _) = walk(&cfg, &tree, b"r", b"/r");
    assert_eq!(full, 4 + 4 + 4 + 400);
}

#[test]
fn excluded_directory_contributes_nothing() {
    let tree = dir(
        "r",
        8,
        vec![dir("big", 8, vec![file("huge", 1 << 30, 1 << 21)]), file("small", 10, 8)],
    );
    let mut cfg = config(SizeFormat::Blocks);
    cfg.exclusions.add_path(b"/abs/r/big".to_vec());
    let (total, lines) = walk(&cfg, &tree, b"r", b"/abs/r");
    assert_eq!(total, 8);
    assert!(lines.is_empty());
}

#[test]
fn excluded_extension_is_skipped() {
    let tree = dir("r", 0, vec![file("a.log", 10, 8), file("b.txt", 10, 8), file(".log", 10, 8)]);
    let mut cfg = config(SizeFormat::Bytes);
    cfg.exclusions.add_pattern(b"log".to_vec());
    let (total, _) = walk(&cfg, &tree, b"r", b"/r");
    assert_eq!(total, 20);
}

#[test]
fn other_device_is_skipped() {
    let mut other = dir("mnt", 8, vec![file("x", 10, 8)]);
    other.dev = 2;
    let tree = dir("r", 8, vec![other, file("y", 10, 8)]);
    let mut cfg = config(SizeFormat::Blocks);
    cfg.root_dev = Some(1);
    let (total, lines) = walk(&cfg, &tree, b"r", b"/r");
    assert_eq!(total, 8);
    assert!(lines.is_empty());
}

#[test]
fn threshold_filters_lines_not_total() {
    let tree = dir(
        "r",
        0,
        vec![dir("small", 0, vec![file("a", 1, 2)]), dir("large", 0, vec![file("b", 1, 64)])],
    );
    let mut cfg = config(SizeFormat::Blocks);
    cfg.threshold = 10;
    let (total, lines) = walk(&cfg, &tree, b"r", b"/r");
    assert_eq!(line_strings(&lines), vec![(32, "r/large".to_string())]);
    assert_eq!(total, 33);
    cfg.summarize = true;
    let (total2, lines2) = walk(&cfg, &tree, b"r", b"/r");
    assert_eq!(total2, 33);
    assert!(lines2.is_empty());
}

#[test]
fn dot_entries_are_ignored() {
    let tree = dir("r", 0, vec![dir(".", 8, vec![]), dir("..", 8, vec![]), file("f", 3, 0)]);
    let (total, lines) = walk(&config(SizeFormat::Bytes), &tree, b"r", b"/r");
    assert_eq!(total, 3);
    assert!(lines.is_empty());
}

#[test]
fn root_display_and_labels() {
    assert_eq!(display_root(b"/home/u", b"/home/u"), b".".to_vec());
    assert_eq!(display_root(b".", b"/home/u"), b".".to_vec());
    assert_eq!(display_root(b"src", b"/home/u"), b"src".to_vec());
    assert_eq!(display_root(b"/home/u/", b"/home/u"), b".".to_vec());
    assert_eq!(display_root(b"/home//u/.", b"/home/u"), b".".to_vec());
    assert_eq!(display_root(b"home/u", b"/home/u"), b"home/u".to_vec());
    assert_eq!(display_root(b"/home/us", b"/home/u"), b"/home/us".to_vec());
    assert_eq!(display_root(b"./", b"/home/u"), b"./".to_vec());
    assert_eq!(total_label(false, true, b"src"), b"total".to_vec());
    assert_eq!(total_label(true, true, b"src"), b"src".to_vec());
    assert_eq!(total_label(false, false, b"src"), b"src".to_vec());
}

#[test]
fn root_on_other_device_counts_nothing() {
    let mut tree = dir("r", 8, vec![file("y", 10, 8), dir("d", 8, vec![])]);
    tree.dev = 2;
    let mut cfg = config(SizeFormat::Blocks);
    cfg.root_dev = Some(1);
    let (total, lines) = walk(&cfg, &tree, b"r", b"/r");
    assert_eq!(total, 0);
    assert!(lines.is_empty());
    cfg.root_dev = Some(2);
    let (total, _) = walk(&cfg, &tree, b"r", b"/r");
    assert_eq!(total, 4);
}
