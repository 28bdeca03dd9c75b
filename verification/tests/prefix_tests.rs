use grubby::prefix::{prefix_from_mounts, strip_path_prefix};

fn lines(raw: &[&str]) -> Vec<String> {
    raw.iter().map(|s| String::from(*s)).collect()
}

#[test]
fn prefix_found_in_fifth_field() {
    let table = lines(&[
        "22 62 0:20 / /proc rw,nosuid shared:5 - proc proc rw",
        "96 60 8:2 / /boot rw,relatime shared:30 - ext4 /dev/sda2 rw",
    ]);
    assert_eq!(prefix_from_mounts(&table), "/boot");
}

#[test]
fn prefix_absent_without_boot_mount() {
    let table = lines(&[
        "22 62 0:20 / /proc rw,nosuid shared:5 - proc proc rw",
        "60 1 8:3 / / rw,relatime shared:1 - ext4 /dev/sda3 rw",
    ]);
    assert_eq!(prefix_from_mounts(&table), "");
}

#[test]
fn boot_elsewhere_than_fifth_field_does_not_count() {
    let table = lines(&["96 60 8:2 /boot /mnt rw - ext4 /dev/sda2 rw"]);
    assert_eq!(prefix_from_mounts(&table), "");
}

#[test]
fn short_lines_are_ignored() {
    let table = lines(&["too few fields", ""]);
    assert_eq!(prefix_from_mounts(&table), "");
}

#[test]
fn empty_table_yields_no_prefix() {
    assert_eq!(prefix_from_mounts(&Vec::new()), "");
}

#[test]
fn strip_drops_through_the_prefix() {
    assert_eq!(strip_path_prefix("/boot/vmlinuz-5.10.0", "/boot"), "/vmlinuz-5.10.0");
}

#[test]
fn strip_keeps_path_without_the_prefix() {
    assert_eq!(strip_path_prefix("/srv/vmlinuz-5.10.0", "/boot"), "/srv/vmlinuz-5.10.0");
}

#[test]
fn strip_keeps_path_equal_to_the_prefix() {
    assert_eq!(strip_path_prefix("/boot", "/boot"), "/boot");
}

#[test]
fn strip_with_empty_prefix_changes_nothing() {
    assert_eq!(strip_path_prefix("/boot/vmlinuz-1", ""), "/boot/vmlinuz-1");
}

#[test]
fn strip_uses_the_first_occurrence() {
    assert_eq!(strip_path_prefix("/mnt/boot/boot/vmlinuz", "/boot"), "/boot/vmlinuz");
}
