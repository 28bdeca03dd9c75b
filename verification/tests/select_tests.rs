use grubby::entry::BootEntry;
use grubby::select::{default_entry_position, get_default_index, select_entries};

fn entry(id: &str, title: &str, linux: &str, options: &str) -> BootEntry {
    BootEntry {
        id: String::from(id),
        title: String::from(title),
        version: String::new(),
        linux: String::from(linux),
        initrd: vec![String::from("/initramfs.img")],
        options: String::from(options),
        grub_users: String::from("$grub_users"),
        grub_arg: String::from("--unrestricted"),
        grub_class: String::from("kernel"),
    }
}

fn sample() -> Vec<BootEntry> {
    vec![
        entry("m-1", "Linux One", "/vmlinuz-1", "ro"),
        entry("m-2", "Linux Two", "/vmlinuz-2", "ro quiet"),
        entry("m-3", "Linux One", "/vmlinuz-3", "ro"),
    ]
}

#[test]
fn default_index_is_zero() {
    assert_eq!(get_default_index(), 0);
}

#[test]
fn all_returns_every_record_in_order() {
    let entries = sample();
    let r = select_entries("ALL", &entries, get_default_index(), "/boot");
    assert_eq!(r, vec![0, 1, 2]);
}

#[test]
fn all_on_empty_store_returns_nothing() {
    let entries: Vec<BootEntry> = Vec::new();
    let r = select_entries("ALL", &entries, get_default_index(), "/boot");
    assert_eq!(r, Vec::<usize>::new());
}

#[test]
fn default_returns_exactly_the_default_record() {
    let entries = sample();
    let r = select_entries("DEFAULT", &entries, get_default_index(), "/boot");
    assert_eq!(r, vec![0]);
}

#[test]
fn numeric_selector_matches_by_decimal_representation() {
    let entries = sample();
    let r = select_entries("1", &entries, get_default_index(), "/boot");
    assert_eq!(r, vec![1]);
    let none = select_entries("01", &entries, get_default_index(), "/boot");
    assert_eq!(none, Vec::<usize>::new());
}

#[test]
fn kernel_path_selector_includes_prefix() {
    let entries = sample();
    let r = select_entries("/boot/vmlinuz-2", &entries, get_default_index(), "/boot");
    assert_eq!(r, vec![1]);
    let bare = select_entries("/vmlinuz-2", &entries, get_default_index(), "/boot");
    assert_eq!(bare, Vec::<usize>::new());
}

#[test]
fn title_selector_matches_exactly_and_only() {
    let entries = sample();
    let r = select_entries("TITLE=Linux One", &entries, get_default_index(), "/boot");
    assert_eq!(r, vec![0, 2]);
    let sub = select_entries("TITLE=Linux", &entries, get_default_index(), "/boot");
    assert_eq!(sub, Vec::<usize>::new());
    let sup = select_entries("TITLE=Linux One More", &entries, get_default_index(), "/boot");
    assert_eq!(sup, Vec::<usize>::new());
}

#[test]
fn unmatched_selector_is_an_empty_selection() {
    let entries = sample();
    let r = select_entries("TITLE=Absent", &entries, get_default_index(), "/boot");
    assert_eq!(r, Vec::<usize>::new());
}

#[test]
fn default_position_needs_a_record() {
    assert_eq!(default_entry_position(0), None);
    assert_eq!(default_entry_position(3), Some(0));
}
