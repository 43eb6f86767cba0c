use savesnap::clock::now_timestamp;
use savesnap::retention::{apply_tick, prune_plan, sort_entries, Entry};
use savesnap::timestamp::snapshot_file_name;

fn entry(created: u128, name: &str) -> Entry {
    Entry { created, name: name.as_bytes().to_vec() }
}

fn names(entries: &[Entry]) -> Vec<String> {
    entries.iter().map(|e| String::from_utf8(e.name.clone()).unwrap()).collect()
}

#[test]
fn sort_orders_by_creation_time() {
    let sorted = sort_entries(vec![entry(3, "c"), entry(1, "a"), entry(2, "b")]);
    assert_eq!(names(&sorted), ["a", "b", "c"]);
}

#[test]
fn sort_breaks_ties_by_name() {
    let sorted = sort_entries(vec![entry(5, "b"), entry(5, "a"), entry(4, "z")]);
    assert_eq!(names(&sorted), ["z", "a", "b"]);
}

#[test]
fn oldest_two_of_four_are_deleted_at_limit_two() {
    let input = vec![entry(3, "t3"), entry(1, "t1"), entry(4, "t4"), entry(2, "t2")];
    let (deleted, kept) = prune_plan(input, 2);
    assert_eq!(names(&deleted), ["t1", "t2"]);
    assert_eq!(names(&kept), ["t3", "t4"]);
}

#[test]
fn pruning_twice_is_a_no_op_the_second_time() {
    let input = vec![entry(3, "t3"), entry(1, "t1"), entry(4, "t4"), entry(2, "t2")];
    let (_, kept) = prune_plan(input, 2);
    let kept_names = names(&kept);
    let (deleted_again, kept_again) = prune_plan(kept, 2);
    assert!(deleted_again.is_empty());
    assert_eq!(names(&kept_again), kept_names);
}

#[test]
fn under_limit_nothing_is_deleted() {
    let (deleted, kept) = prune_plan(vec![entry(2, "b"), entry(1, "a")], 5);
    assert!(deleted.is_empty());
    assert_eq!(names(&kept), ["a", "b"]);
}

#[test]
fn at_limit_nothing_is_deleted() {
    let (deleted, kept) = prune_plan(vec![entry(2, "b"), entry(1, "a")], 2);
    assert!(deleted.is_empty());
    assert_eq!(kept.len(), 2);
}

#[test]
fn limit_zero_deletes_everything() {
    let (deleted, kept) = prune_plan(vec![entry(2, "b"), entry(1, "a")], 0);
    assert_eq!(names(&deleted), ["a", "b"]);
    assert!(kept.is_empty());
}

#[test]
fn empty_directory_stays_empty() {
    let (deleted, kept) = prune_plan(Vec::new(), 3);
    assert!(deleted.is_empty());
    assert!(kept.is_empty());
}

#[test]
fn equal_times_delete_names_in_ascending_order() {
    let input = vec![entry(7, "b"), entry(7, "a"), entry(7, "c")];
    let (deleted, kept) = prune_plan(input, 1);
    assert_eq!(names(&deleted), ["a", "b"]);
    assert_eq!(names(&kept), ["c"]);
}

#[test]
fn four_ticks_at_limit_three_keep_the_last_three_snapshots() {
    // Four ticks one minute apart over an initially empty directory,
    // limit 3: the first tick's snapshot is deleted, the other three
    // remain, newest last.
    let base = "save.dat";
    let mut on_disk: Vec<Entry> = Vec::new();
    let mut tick_names: Vec<String> = Vec::new();
    for tick in 0..4u32 {
        let t = savesnap::timestamp::Timestamp::from_fields(2026, 10, 8, 12, tick, 0).unwrap();
        let name = snapshot_file_name(&t, base);
        tick_names.push(name.clone());
        let new_snapshot = Entry { created: 1_000 + tick as u128, name: name.into_bytes() };
        let (deleted, kept) = apply_tick(on_disk, new_snapshot, 3);
        for d in &deleted {
            assert!(!kept.iter().any(|k| k.name == d.name));
        }
        on_disk = kept;
    }
    assert_eq!(on_disk.len(), 3);
    assert_eq!(names(&on_disk), tick_names[1..4]);
    assert_eq!(tick_names[0], "20261008120000_save.dat");
}

#[test]
fn current_time_makes_a_well_formed_snapshot_name() {
    let t = now_timestamp().expect("the clock's year fits four digits");
    assert!(1 <= t.month && t.month <= 12);
    assert!(1 <= t.day && t.day <= 31);
    assert!(t.hour <= 23 && t.minute <= 59 && t.second <= 59);
    let name = snapshot_file_name(&t, "save.dat");
    assert_eq!(name.len(), "00000000000000_save.dat".len());
    assert!(name[..14].chars().all(|c| c.is_ascii_digit()));
    assert_eq!(&name[14..], "_save.dat");
    assert!(&name[..4] >= "2020");
}
