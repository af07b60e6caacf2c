use dupehound::history::{civil_month, month_of, pick_snapshots};

#[test]
fn months_of_known_times() {
    assert_eq!(month_of(0), "1970-01");
    assert_eq!(month_of(-1), "1969-12");
    assert_eq!(month_of(1_704_067_200), "2024-01"); // 2024-01-01T00:00:00Z
    assert_eq!(month_of(1_709_251_199), "2024-02"); // 2024-02-29T23:59:59Z
    assert_eq!(month_of(1_709_251_200), "2024-03");
    assert_eq!(month_of(951_782_400), "2000-02"); // 2000-02-29
    assert_eq!(month_of(4_107_542_400), "2100-03"); // 2100 is no leap year
    assert_eq!(month_of(-62_135_596_800), "0001-01");
    assert_eq!(month_of(-62_167_219_200), "0000-01");
    assert_eq!(month_of(-62_167_219_201), "-001-12");
}

#[test]
fn civil_months_at_the_extremes() {
    let (y, m) = civil_month(i64::MAX);
    assert!(y > 292_000_000_000 && (1..=12).contains(&m));
    let (y, m) = civil_month(i64::MIN);
    assert!(y < -292_000_000_000 && (1..=12).contains(&m));
}

fn log_of(months: &[(u32, u32)]) -> String {
    // One commit per (year, month), on the 15th at noon UTC.
    let mut out = String::new();
    for (i, &(y, m)) in months.iter().enumerate() {
        let days = days_from_civil(y as i64, m as i64, 15);
        out.push_str(&format!("c{:02} {}\n", i, days * 86_400 + 43_200));
    }
    out
}

fn days_from_civil(y: i64, m: i64, d: i64) -> i64 {
    let y = if m <= 2 { y - 1 } else { y };
    let era = y.div_euclid(400);
    let yoe = y - era * 400;
    let mp = (m + 9) % 12;
    let doy = (153 * mp + 2) / 5 + d - 1;
    let doe = yoe * 365 + yoe / 4 - yoe / 100 + doy;
    era * 146_097 + doe - 719_468
}

#[test]
fn last_commit_of_each_month_is_kept() {
    let months: Vec<(u32, u32)> = (1..=8).flat_map(|m| [(2024, m), (2024, m)]).collect();
    let picked = pick_snapshots(&log_of(&months), 36);
    let commits: Vec<&str> = picked.iter().map(|(c, _)| c.as_str()).collect();
    assert_eq!(commits, vec!["c01", "c03", "c05", "c07", "c09", "c11", "c13", "c15"]);
    assert_eq!(picked[0].1, "2024-01");
    assert_eq!(picked[7].1, "2024-08");
}

#[test]
fn months_are_spread_evenly_down_to_the_maximum() {
    let months: Vec<(u32, u32)> = (1..=12).map(|m| (2023, m)).collect();
    let picked = pick_snapshots(&log_of(&months), 4);
    // Positions 0, 11/3, 22/3, 11 -> 0, 3, 7, 11.
    let commits: Vec<&str> = picked.iter().map(|(c, _)| c.as_str()).collect();
    assert_eq!(commits, vec!["c00", "c03", "c07", "c11"]);
}

#[test]
fn young_repos_spread_commits_instead_of_months() {
    let months: Vec<(u32, u32)> = vec![(2024, 1), (2024, 1), (2024, 1), (2024, 2)];
    let picked = pick_snapshots(&log_of(&months), 36);
    assert_eq!(picked.len(), 4);
    assert_eq!(picked[3], ("c03".to_string(), "2024-02".to_string()));
}

#[test]
fn unreadable_log_lines_are_skipped() {
    let log = "abc 1704067200\nno-timestamp\nxyz notanumber\ndef  1706745600 \n";
    let picked = pick_snapshots(log, 36);
    assert_eq!(
        picked,
        vec![("abc".to_string(), "2024-01".to_string()), ("def".to_string(), "2024-02".to_string())]
    );
    assert!(pick_snapshots("", 36).is_empty());
}

#[test]
fn one_snapshot_of_many_is_the_newest() {
    let months: Vec<(u32, u32)> = (1..=8).map(|m| (2024, m)).collect();
    let all = pick_snapshots(&log_of(&months), 36);
    let one = pick_snapshots(&log_of(&months), 1);
    assert_eq!(one.len(), 1);
    assert_eq!(one[0], all[all.len() - 1]);
    // A single commit fits one snapshot.
    assert_eq!(pick_snapshots(&log_of(&[(2024, 1)]), 1).len(), 1);
}
