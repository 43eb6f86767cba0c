use savesnap::timestamp::{snapshot_file_name, Timestamp};

fn ts(year: i32, month: u32, day: u32, hour: u32, minute: u32, second: u32) -> Timestamp {
    Timestamp::from_fields(year, month, day, hour, minute, second).unwrap()
}

#[test]
fn snapshot_name_matches_compact_timestamp() {
    let t = ts(2026, 10, 8, 1, 2, 3);
    let name = snapshot_file_name(&t, "save.dat");
    assert_eq!(name, "20261008010203_save.dat");
}

#[test]
fn snapshot_name_pads_every_field() {
    let t = ts(7, 1, 2, 0, 0, 9);
    let name = snapshot_file_name(&t, "x");
    assert_eq!(name, "00070102000009_x");
}

#[test]
fn snapshot_name_keeps_base_name_verbatim() {
    let t = ts(1999, 12, 31, 23, 59, 59);
    let name = snapshot_file_name(&t, "my save (final).dat");
    assert_eq!(name, "19991231235959_my save (final).dat");
}

#[test]
fn format_compact_is_fourteen_digits() {
    let t = ts(2026, 10, 8, 1, 2, 3);
    let s = t.format_compact();
    assert_eq!(s.len(), 14);
    assert!(s.chars().all(|c| c.is_ascii_digit()));
}

#[test]
fn names_sort_lexically_in_time_order() {
    let older = ts(2026, 9, 30, 23, 59, 59);
    let newer = ts(2026, 10, 1, 0, 0, 0);
    let a = snapshot_file_name(&older, "save.dat");
    let b = snapshot_file_name(&newer, "save.dat");
    assert!(a < b);
}

#[test]
fn from_fields_rejects_out_of_range_fields() {
    assert!(Timestamp::from_fields(-1, 1, 1, 0, 0, 0).is_none());
    assert!(Timestamp::from_fields(10000, 1, 1, 0, 0, 0).is_none());
    assert!(Timestamp::from_fields(2026, 0, 1, 0, 0, 0).is_none());
    assert!(Timestamp::from_fields(2026, 13, 1, 0, 0, 0).is_none());
    assert!(Timestamp::from_fields(2026, 1, 0, 0, 0, 0).is_none());
    assert!(Timestamp::from_fields(2026, 1, 32, 0, 0, 0).is_none());
    assert!(Timestamp::from_fields(2026, 1, 1, 24, 0, 0).is_none());
    assert!(Timestamp::from_fields(2026, 1, 1, 0, 60, 0).is_none());
    assert!(Timestamp::from_fields(2026, 1, 1, 0, 0, 60).is_none());
}

#[test]
fn from_fields_accepts_boundary_fields() {
    let t = ts(0, 1, 1, 0, 0, 0);
    assert_eq!(snapshot_file_name(&t, "s"), "00000101000000_s");
    let t = ts(9999, 12, 31, 23, 59, 59);
    assert_eq!(snapshot_file_name(&t, "s"), "99991231235959_s");
}
