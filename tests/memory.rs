use memstats::error::MemError;
use memstats::process::{truncate_command, ProcessMemoryStats};
use memstats::system::MemoryStats;
use memstats::text::parse_decimal;

const MEMINFO: &str = "MemTotal:        7500000 kB
MemFree:          350000 kB
MemAvailable:    2000000 kB
Buffers:          100000 kB
Cached:          1900000 kB
SwapCached:       260000 kB
Active:          3000000 kB
SwapTotal:      10000000 kB
SwapFree:        7800000 kB
Zswap:            780000 kB
Zswapped:        1700000 kB
Shmem:            125000 kB
";

fn meminfo(text: &str) -> Result<MemoryStats, MemError> {
    let mut m = MemoryStats::new();
    m.update(text.as_bytes()).map(|_| m)
}

fn rollup(lines: &[&str]) -> Result<ProcessMemoryStats, MemError> {
    let mut p = ProcessMemoryStats::new();
    p.update(42, "sleep");
    for l in lines {
        p.scan_line(l.as_bytes())?;
    }
    Ok(p)
}

#[test]
fn meminfo_raw_and_derived_fields() {
    let m = meminfo(MEMINFO).unwrap();
    assert_eq!(m.total, 7500000);
    assert_eq!(m.free, 350000);
    assert_eq!(m.available, 2000000);
    assert_eq!(m.buffers, 100000);
    assert_eq!(m.cached, 1900000);
    assert_eq!(m.swap_cached, 260000);
    assert_eq!(m.swap_total, 10000000);
    assert_eq!(m.swap_free, 7800000);
    assert_eq!(m.zswap_compressed, 780000);
    assert_eq!(m.zswap, 1700000);
    assert_eq!(m.shared, 125000);
    assert_eq!(m.used, 5150000);
    assert_eq!(m.swap_used, 2200000);
    assert_eq!(m.totalvmem, 17500000);
    assert_eq!(m.freevmem, 8150000);
    assert_eq!(m.usedvmem, 7350000);
    assert_eq!(m.availablevmem, 9800000);
}

#[test]
fn meminfo_used_formula_adds_up() {
    let m = meminfo(MEMINFO).unwrap();
    assert_eq!(
        m.used + m.free as i128 + m.buffers as i128 + m.cached as i128,
        m.total as i128
    );
}

#[test]
fn meminfo_line_order_does_not_matter() {
    let mut lines: Vec<&str> = MEMINFO.lines().collect();
    lines.reverse();
    let reordered = lines.join("\n");
    let a = meminfo(MEMINFO).unwrap();
    let b = meminfo(&reordered).unwrap();
    assert_eq!(a.used, b.used);
    assert_eq!(a.total, b.total);
    assert_eq!(a.usedvmem, b.usedvmem);
    assert_eq!(a.zswap, b.zswap);
}

#[test]
fn meminfo_repeated_key_keeps_last() {
    let m = meminfo("MemTotal: 100 kB\nMemFree: 10 kB\nMemTotal: 300 kB\n").unwrap();
    assert_eq!(m.total, 300);
    assert_eq!(m.used, 290);
}

#[test]
fn meminfo_without_known_keys_is_all_zero() {
    let m = meminfo("Active: 5 kB\nInactive: 7 kB\n").unwrap();
    assert_eq!(m.total, 0);
    assert_eq!(m.free, 0);
    assert_eq!(m.zswap_compressed, 0);
    assert_eq!(m.used, 0);
    assert_eq!(m.swap_used, 0);
    assert_eq!(m.totalvmem, 0);
    assert_eq!(m.usedvmem, 0);
    assert_eq!(m.availablevmem, 0);
}

#[test]
fn meminfo_empty_text_is_all_zero() {
    let m = meminfo("").unwrap();
    assert_eq!(m.total, 0);
    assert_eq!(m.used, 0);
}

#[test]
fn meminfo_parts_above_total_give_negative_used() {
    let m = meminfo("MemTotal: 100 kB\nMemFree: 80 kB\nCached: 50 kB\nSwapFree: 5 kB\n").unwrap();
    assert_eq!(m.used, -30);
    assert_eq!(m.swap_used, -5);
    assert_eq!(m.usedvmem, -35);
}

#[test]
fn meminfo_largest_values_do_not_overflow() {
    let text = format!("MemTotal: {} kB\nSwapTotal: {} kB\n", u64::MAX, u64::MAX);
    let m = meminfo(&text).unwrap();
    assert_eq!(m.totalvmem, 2 * (u64::MAX as u128));
    assert_eq!(m.used, u64::MAX as i128);
}

#[test]
fn meminfo_single_token_line_is_bad_format() {
    let r = meminfo("MemTotal: 100 kB\nMemFree:\n");
    assert!(matches!(r, Err(MemError::BadFileFormat)));
}

#[test]
fn meminfo_blank_line_is_bad_format() {
    let r = meminfo("MemTotal: 100 kB\n\nMemFree: 5 kB\n");
    assert!(matches!(r, Err(MemError::BadFileFormat)));
}

#[test]
fn meminfo_bad_number_is_invalid_number() {
    let r = meminfo("MemTotal: 100 kB\nMemFree: 12x kB\n");
    match r {
        Err(MemError::InvalidNumber(line)) => assert_eq!(line, b"MemFree: 12x kB".to_vec()),
        _ => panic!("expected an invalid number"),
    }
}

#[test]
fn meminfo_bad_number_under_unknown_key_is_ignored() {
    let m = meminfo("Weird: abc kB\nMemTotal: 9 kB\n").unwrap();
    assert_eq!(m.total, 9);
}

#[test]
fn meminfo_failure_leaves_record_unchanged() {
    let mut m = meminfo("MemTotal: 100 kB\n").unwrap();
    assert!(m.update(b"MemTotal: oops kB\n").is_err());
    assert_eq!(m.total, 100);
    assert_eq!(m.used, 100);
}

#[test]
fn meminfo_zero_compressed_is_not_an_error() {
    let m = meminfo("Zswap: 0 kB\nZswapped: 0 kB\n").unwrap();
    assert_eq!(m.zswap_compressed, 0);
    assert_eq!(m.zswap, 0);
}

#[test]
fn rollup_private_lines_add_into_uss() {
    let p = rollup(&[
        "Private_Clean:       100 kB\n",
        "Private_Clean:        50 kB\n",
        "Private_Dirty:        25 kB\n",
    ])
    .unwrap();
    assert_eq!(p.uss, 175);
}

#[test]
fn rollup_rss_last_write_wins() {
    let p = rollup(&["Rss:      1200 kB\n", "Pss:       300 kB\n", "Rss:      800 kB\n"]).unwrap();
    assert_eq!(p.rss, 800);
    assert_eq!(p.pss, 300);
}

#[test]
fn rollup_reads_all_fields() {
    let p = rollup(&[
        "55d0c0a1b000-7ffd5a3f1000 ---p 00000000 00:00 0                          [rollup]\n",
        "Rss:                3584 kB\n",
        "Pss:                 612 kB\n",
        "Pss_Anon:             96 kB\n",
        "Shared_Clean:       3072 kB\n",
        "Private_Clean:       128 kB\n",
        "Private_Dirty:       384 kB\n",
        "Swap:                 16 kB\n",
        "SwapPss:              16 kB\n",
    ])
    .unwrap();
    assert_eq!(p.rss, 3584);
    assert_eq!(p.pss, 612);
    assert_eq!(p.uss, 512);
    assert_eq!(p.swap, 16);
    assert_eq!(p.pid, 42);
    assert_eq!(p.command, "sleep");
}

#[test]
fn rollup_short_line_is_skipped() {
    let mut p = rollup(&["Rss:      1200 kB\n"]).unwrap();
    assert!(p.scan_line(b"").is_ok());
    assert!(p.scan_line(b"Rss: 9\n").is_ok());
    assert_eq!(p.rss, 1200);
    assert_eq!(p.pss, 0);
    assert_eq!(p.uss, 0);
    assert_eq!(p.swap, 0);
}

#[test]
fn rollup_bad_number_is_invalid_number() {
    let mut p = rollup(&["Rss:      1200 kB\n"]).unwrap();
    match p.scan_line(b"Rss:      abc kB") {
        Err(MemError::InvalidNumber(line)) => assert_eq!(line, b"Rss:      abc kB".to_vec()),
        _ => panic!("expected an invalid number"),
    }
    assert_eq!(p.rss, 1200);
}

#[test]
fn rollup_private_label_without_value_is_invalid_number() {
    let r = rollup(&["Private_Cl\n"]);
    assert!(matches!(r, Err(MemError::InvalidNumber(_))));
}

#[test]
fn rollup_uss_saturates() {
    let big = format!("Private_Dirty: {} kB\n", u64::MAX);
    let p = rollup(&[big.as_str(), "Private_Clean:  5 kB\n"]).unwrap();
    assert_eq!(p.uss, u64::MAX);
}

#[test]
fn rollup_update_resets_counters() {
    let mut p = rollup(&["Rss:      1200 kB\n", "Private_Dirty:  7 kB\n"]).unwrap();
    p.update(7, "bash");
    assert_eq!(p.pid, 7);
    assert_eq!(p.rss, 0);
    assert_eq!(p.uss, 0);
    assert_eq!(p.command, "bash");
}

#[test]
fn command_longer_than_cap_is_truncated() {
    let long = "x".repeat(51);
    assert_eq!(truncate_command(&long), "x".repeat(50));
    let p = {
        let mut p = ProcessMemoryStats::new();
        p.update(1, &"ab".repeat(40));
        p
    };
    assert_eq!(p.command.chars().count(), 50);
}

#[test]
fn command_of_exactly_cap_is_unchanged() {
    let exact = "y".repeat(50);
    assert_eq!(truncate_command(&exact), exact);
    assert_eq!(truncate_command("short"), "short");
}

#[test]
fn command_truncation_counts_characters() {
    let long = "é".repeat(60);
    assert_eq!(truncate_command(&long), "é".repeat(50));
}

#[test]
fn decimal_parsing_follows_from_str() {
    assert_eq!(parse_decimal(b"1200"), Some(1200));
    assert_eq!(parse_decimal(b"+7"), Some(7));
    assert_eq!(parse_decimal(b"+"), None);
    assert_eq!(parse_decimal(b""), None);
    assert_eq!(parse_decimal(b"-1"), None);
    assert_eq!(parse_decimal(b"18446744073709551615"), Some(u64::MAX));
    assert_eq!(parse_decimal(b"18446744073709551616"), None);
}
