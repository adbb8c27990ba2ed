use du_rs::exclude::{extension_start, ExclusionRules};
use du_rs::format::{
    format_block_size, format_size, format_with, get_file_sizes, parse_block_size, render_line,
    BlockSize, FormatError, OutputMode,
};
use du_rs::identity::{should_count, IdentitySet};
use du_rs::report::{exclusion_pattern, select_size_format, threshold_in_units, trimmed};
use du_rs::size::{FileStats, SizeFormat};
use du_rs::threshold::parse_size_to_bytes;

fn text(v: Vec<u8>) -> String {
    String::from_utf8(v).unwrap()
}

#[test]
fn size_model_per_format() {
    let st = FileStats::new(5000, 16);
    assert_eq!(SizeFormat::Bytes.get_file_size(&st), 5000);
    assert_eq!(SizeFormat::Bytes.get_dir_size(&st), 0);
    assert_eq!(SizeFormat::HumanReadable.get_file_size(&st), 8192);
    assert_eq!(SizeFormat::HumanReadable.get_dir_size(&st), 8192);
    assert_eq!(SizeFormat::Blocks.get_file_size(&st), 8);
    assert_eq!(SizeFormat::Blocks.get_dir_size(&FileStats::new(0, 3)), 1);
    assert_eq!(st.disk_usage_bytes(), 8192);
    assert_eq!(st.disk_usage_blocks(), 8);
    assert_eq!(st.size_in_bytes(), 5000);
}

#[test]
fn human_readable_sizes() {
    assert_eq!(text(get_file_sizes(0)), "0B");
    assert_eq!(text(get_file_sizes(1023)), "1023B");
    assert_eq!(text(get_file_sizes(1024)), "1.0K");
    assert_eq!(text(get_file_sizes(1536)), "1.5K");
    assert_eq!(text(get_file_sizes(1280)), "1.2K");
    assert_eq!(text(get_file_sizes(3565158)), "3.4M");
    assert_eq!(text(get_file_sizes(1048575)), "1024.0K");
    assert_eq!(text(get_file_sizes(1 << 30)), "1.0G");
    assert_eq!(text(get_file_sizes(5 << 40)), "5.0T");
    assert_eq!(text(get_file_sizes(u64::MAX)), "16.0E");
}

#[test]
fn block_size_arguments() {
    assert_eq!(parse_block_size(b"-BK"), Ok(BlockSize::Unit(0)));
    assert_eq!(parse_block_size(b"-BZ"), Ok(BlockSize::Unit(6)));
    assert_eq!(parse_block_size(b"-B4096"), Ok(BlockSize::Count(4096)));
    assert_eq!(parse_block_size(b"-B+8"), Ok(BlockSize::Count(8)));
    assert_eq!(parse_block_size(b"-Bk"), Err(FormatError::InvalidBlockSize));
    assert_eq!(parse_block_size(b"-B"), Err(FormatError::InvalidBlockSize));
    assert_eq!(parse_block_size(b"-B-5"), Err(FormatError::InvalidBlockSize));
    assert_eq!(parse_block_size(b"-B12x"), Err(FormatError::InvalidBlockSize));
    assert_eq!(
        parse_block_size(b"-B9223372036854775808"),
        Err(FormatError::InvalidBlockSize)
    );
    assert_eq!(
        parse_block_size(b"-B9223372036854775807"),
        Ok(BlockSize::Count(9223372036854775807))
    );
}

#[test]
fn block_size_rendering() {
    assert_eq!(text(format_size(8192, b"-B1024").unwrap()), "8");
    assert_eq!(text(format_size(8193, b"-B1024").unwrap()), "9");
    assert_eq!(text(format_size(4096, b"-BM").unwrap()), "1M");
    assert_eq!(text(format_size(0, b"-BM").unwrap()), "0M");
    assert_eq!(text(format_size(24576, b"-BK").unwrap()), "24K");
    assert_eq!(text(format_size(1, b"-BG").unwrap()), "1G");
    assert_eq!(text(format_size(u64::MAX, b"-BZ").unwrap()), "1Z");
    assert_eq!(format_size(10, b"-Bq"), Err(FormatError::InvalidBlockSize));
    assert_eq!(text(format_block_size(5, BlockSize::Count(2))), "3");
    assert_eq!(format_size(10, b"-B0"), Err(FormatError::InvalidBlockSize));
    assert_eq!(format_size(10, b""), Err(FormatError::InvalidBlockSize));
    assert_eq!(format_size(10, b"-"), Err(FormatError::InvalidBlockSize));
}

#[test]
fn modes_and_lines() {
    assert_eq!(text(format_with(24, OutputMode::Raw)), "24");
    assert_eq!(text(format_with(24576, OutputMode::Human)), "24.0K");
    assert_eq!(text(render_line(4, b"root/sub", OutputMode::Raw)), "4          root/sub\n");
    assert_eq!(
        text(render_line(12345678901, b"p", OutputMode::Raw)),
        "12345678901 p\n"
    );
    assert_eq!(text(render_line(1234567890, b"p", OutputMode::Raw)), "1234567890 p\n");
}

#[test]
fn size_texts() {
    assert_eq!(parse_size_to_bytes("0"), Some(0));
    assert_eq!(parse_size_to_bytes("10"), Some(10));
    assert_eq!(parse_size_to_bytes("1M"), Some(1048576));
    assert_eq!(parse_size_to_bytes(" 1.5k "), Some(1536));
    assert_eq!(parse_size_to_bytes("0.1K"), Some(102));
    assert_eq!(parse_size_to_bytes(".5K"), Some(512));
    assert_eq!(parse_size_to_bytes("1.K"), Some(1024));
    assert_eq!(parse_size_to_bytes("5X"), Some(5));
    assert_eq!(parse_size_to_bytes("2KB"), Some(2));
    assert_eq!(parse_size_to_bytes("1G"), Some(1073741824));
    assert_eq!(parse_size_to_bytes("99999999999999999999"), Some(i64::MAX));
    assert_eq!(parse_size_to_bytes("8E"), Some(i64::MAX));
    assert_eq!(parse_size_to_bytes("abc"), None);
    assert_eq!(parse_size_to_bytes("1.2.3"), None);
    assert_eq!(parse_size_to_bytes("."), None);
    assert_eq!(parse_size_to_bytes(""), None);
    assert_eq!(parse_size_to_bytes("\u{a0}5"), Some(5));
    assert_eq!(parse_size_to_bytes("\u{3000}2K\u{2003}"), Some(2048));
    assert_eq!(parse_size_to_bytes("\u{85}1\u{202f}"), Some(1));
    assert_eq!(parse_size_to_bytes("\u{a1}5"), None);
}

#[test]
fn threshold_units_follow_format() {
    assert_eq!(threshold_in_units(4096, SizeFormat::Blocks), 4);
    assert_eq!(threshold_in_units(4096, SizeFormat::Bytes), 4096);
    assert_eq!(threshold_in_units(4096, SizeFormat::HumanReadable), 4096);
    assert_eq!(threshold_in_units(-3, SizeFormat::Bytes), 0);
    assert_eq!(select_size_format(true, false, false), SizeFormat::Bytes);
    assert_eq!(select_size_format(false, true, false), SizeFormat::HumanReadable);
    assert_eq!(select_size_format(false, false, false), SizeFormat::Blocks);
    assert_eq!(select_size_format(true, false, true), SizeFormat::HumanReadable);
}

#[test]
fn identity_tracker() {
    let mut seen = IdentitySet::new();
    assert!(should_count(&mut seen, 1, 5, 2, false));
    assert!(!should_count(&mut seen, 1, 5, 2, false));
    assert!(should_count(&mut seen, 2, 5, 2, false));
    assert!(should_count(&mut seen, 1, 5, 2, true));
    assert!(should_count(&mut seen, 1, 6, 1, false));
    assert!(should_count(&mut seen, 1, 6, 1, false));
}

#[test]
fn exclusion_predicate() {
    let mut rules = ExclusionRules::new();
    rules.add_path(b"/data/cache".to_vec());
    rules.add_pattern(b"gz".to_vec());
    assert!(rules.is_excluded(b"cache", b"/data/cache", true));
    assert!(!rules.is_excluded(b"cache", b"/data/cache", false));
    assert!(!rules.is_excluded(b"cache", b"/other/cache", true));
    assert!(rules.is_excluded(b"a.tar.gz", b"/x/a.tar.gz", false));
    assert!(!rules.is_excluded(b"a.gz.tar", b"/x/a.gz.tar", false));
    assert!(!rules.is_excluded(b".gz", b"/x/.gz", false));
    assert_eq!(extension_start(b"a.tar.gz"), Some(6));
    assert_eq!(extension_start(b".profile"), None);
    assert_eq!(extension_start(b"noext"), None);
    assert_eq!(extension_start(b"trailing."), Some(9));
}

#[test]
fn exclusion_file_lines() {
    assert_eq!(exclusion_pattern(b"  *.log "), Some(b"log".to_vec()));
    assert_eq!(exclusion_pattern(b"*."), Some(Vec::new()));
    assert_eq!(exclusion_pattern(b"log"), None);
    assert_eq!(exclusion_pattern(b"/tmp/x"), None);
    assert_eq!(trimmed(b"\t /tmp/x \r"), b"/tmp/x".to_vec());
    assert_eq!(trimmed("\u{a0}/tmp/y\u{2028}".as_bytes()), b"/tmp/y".to_vec());
    assert_eq!(exclusion_pattern("\u{3000}*.bak".as_bytes()), Some(b"bak".to_vec()));
}
