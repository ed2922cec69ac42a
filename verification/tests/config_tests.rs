use cachesim::config::{parse_size, parse_usize, trim, split_str, CacheSpec, CacheSpecs};

#[test]
fn test_basic_cache_spec() {
    let spec: CacheSpec = "64:100".parse().unwrap();
    assert_eq!(spec.line_size, 64);
    assert_eq!(spec.num_lines, 100);
}

#[test]
fn test_cache_spec_with_k() {
    let spec: CacheSpec = "4K:10".parse().unwrap();
    assert_eq!(spec.line_size, 4 * 1024);
    assert_eq!(spec.num_lines, 10);
}

#[test]
fn test_cache_spec_with_kib() {
    let spec: CacheSpec = "4KiB:10".parse().unwrap();
    assert_eq!(spec.line_size, 4 * 1024);
    assert_eq!(spec.num_lines, 10);
}

#[test]
fn test_cache_spec_with_mib() {
    let spec: CacheSpec = "1MiB:100".parse().unwrap();
    assert_eq!(spec.line_size, 1 * 1024 * 1024);
    assert_eq!(spec.num_lines, 100);
}

#[test]
fn test_multiple_cache_specs() {
    let specs: CacheSpecs = "64:100,4K:10,1MiB:100".parse().unwrap();
    assert_eq!(specs.specs.len(), 3);
    assert_eq!(specs.specs[0].line_size, 64);
    assert_eq!(specs.specs[0].num_lines, 100);
    assert_eq!(specs.specs[1].line_size, 4 * 1024);
    assert_eq!(specs.specs[1].num_lines, 10);
    assert_eq!(specs.specs[2].line_size, 1 * 1024 * 1024);
    assert_eq!(specs.specs[2].num_lines, 100);
}

#[test]
fn size_units() {
    assert_eq!(parse_size("12"), Ok(12));
    assert_eq!(parse_size(" 12 "), Ok(12));
    assert_eq!(parse_size("12B"), Ok(12));
    assert_eq!(parse_size("2k"), Ok(2048));
    assert_eq!(parse_size("2KB"), Ok(2000));
    assert_eq!(parse_size("2kB"), Ok(2000));
    assert_eq!(parse_size("3M"), Ok(3 << 20));
    assert_eq!(parse_size("3MB"), Ok(3_000_000));
    assert_eq!(parse_size("3mib"), Err("Invalid number: '3mib'".to_string()));
    assert_eq!(parse_size("1G"), Ok(1 << 30));
    assert_eq!(parse_size("1GiB"), Ok(1 << 30));
    assert_eq!(parse_size("1GB"), Ok(1_000_000_000));
    assert_eq!(parse_size("+5K"), Ok(5 * 1024));
}

#[test]
fn size_errors() {
    assert_eq!(parse_size(""), Err("Invalid number: ''".to_string()));
    assert_eq!(parse_size("K"), Err("Invalid number: ''".to_string()));
    assert_eq!(parse_size("x1"), Err("Invalid number: 'x1'".to_string()));
    assert_eq!(parse_size("-1"), Err("Invalid number: '-1'".to_string()));
    assert_eq!(parse_size("1 K"), Err("Invalid number: '1 '".to_string()));
    assert_eq!(
        parse_size("99999999999999999999"),
        Err("Invalid number: '99999999999999999999'".to_string())
    );
    assert_eq!(
        parse_size("18446744073709551615G"),
        Err("Size out of range: '18446744073709551615'".to_string())
    );
}

#[test]
fn usize_text() {
    assert_eq!(parse_usize("0"), Some(0));
    assert_eq!(parse_usize("+7"), Some(7));
    assert_eq!(parse_usize("+"), None);
    assert_eq!(parse_usize(""), None);
    assert_eq!(parse_usize("007"), Some(7));
    assert_eq!(parse_usize("18446744073709551615"), Some(usize::MAX));
    assert_eq!(parse_usize("18446744073709551616"), None);
    assert_eq!(parse_usize("1_000"), None);
}

#[test]
fn trimming_and_splitting() {
    assert_eq!(trim("  a b \t\n"), "a b");
    assert_eq!(trim("\u{3000}x\u{a0}"), "x");
    assert_eq!(trim("   "), "");
    assert_eq!(split_str("a,b,,c", ','), vec!["a", "b", "", "c"]);
    assert_eq!(split_str("", ','), vec![""]);
    assert_eq!(split_str(",", ','), vec!["", ""]);
}

#[test]
fn cache_spec_inclusive_marker() {
    let spec: CacheSpec = "64:8n".parse().unwrap();
    assert_eq!((spec.line_size, spec.num_lines, spec.inclusive), (64, 8, false));
    let spec: CacheSpec = "64:8".parse().unwrap();
    assert!(spec.inclusive);
    let specs: CacheSpecs = " 64:8n , 4KiB : 2 ".parse().unwrap();
    assert_eq!(specs.specs.len(), 2);
    assert!(!specs.specs[0].inclusive);
    assert_eq!((specs.specs[1].line_size, specs.specs[1].num_lines), (4096, 2));
}

#[test]
fn cache_spec_errors() {
    assert_eq!(
        "64".parse::<CacheSpec>().unwrap_err(),
        "Invalid cache spec format: '64'. Expected 'size:lines'"
    );
    assert_eq!(
        "1:2:3n".parse::<CacheSpec>().unwrap_err(),
        "Invalid cache spec format: '1:2:3'. Expected 'size:lines'"
    );
    assert_eq!("64:x".parse::<CacheSpec>().unwrap_err(), "Invalid number of lines: 'x'");
    assert_eq!("q:1".parse::<CacheSpec>().unwrap_err(), "Invalid number: 'q'");
    // the first level that fails decides the message
    assert_eq!(
        "64:1,bad,q:1".parse::<CacheSpecs>().unwrap_err(),
        "Invalid cache spec format: 'bad'. Expected 'size:lines'"
    );
    assert_eq!(
        "".parse::<CacheSpecs>().unwrap_err(),
        "Invalid cache spec format: ''. Expected 'size:lines'"
    );
}

#[test]
fn trim_takes_unicode_white_space() {
    assert_eq!(trim("\u{3000}\t 64:100 \u{2009}\n"), "64:100");
    assert_eq!(trim("\u{200b}x"), "\u{200b}x");
    let specs: CacheSpecs = " 64:100 ,\u{a0}4K:10n ".parse().unwrap();
    assert_eq!(specs.specs.len(), 2);
    assert_eq!(specs.specs[1].line_size, 4096);
    assert!(!specs.specs[1].inclusive);
}
