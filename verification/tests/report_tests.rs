use grubby::entry::{id_from_filename, BootEntry};
use grubby::report::format_entry_report;
use grubby::strtok::trim_ws;

fn record() -> BootEntry {
    BootEntry {
        id: String::from("abcdef123456-5.10.0"),
        title: String::from("Linux 5.10.0"),
        version: String::from("5.10.0"),
        linux: String::from("/vmlinuz-5.10.0"),
        initrd: vec![String::from("/initramfs-5.10.0.img")],
        options: String::from("ro root=/dev/sda1 quiet"),
        grub_users: String::from("$grub_users"),
        grub_arg: String::from("--unrestricted"),
        grub_class: String::from("kernel"),
    }
}

#[test]
fn report_lists_the_labeled_fields() {
    let lines = format_entry_report(0, &record(), "/boot");
    assert_eq!(
        lines,
        vec![
            String::from("index=0"),
            String::from("kernel=\"/boot/vmlinuz-5.10.0\""),
            String::from("args=\"ro quiet\""),
            String::from("root=\"/dev/sda1\""),
            String::from("initrd=\"/boot/initramfs-5.10.0.img\""),
            String::from("title=\"Linux 5.10.0\""),
            String::from("id=\"abcdef123456-5.10.0\""),
        ]
    );
}

#[test]
fn report_shows_each_initrd() {
    let mut e = record();
    e.initrd.push(String::from("/extra.img"));
    let lines = format_entry_report(3, &e, "/boot");
    assert_eq!(lines[0], "index=3");
    assert_eq!(lines[4], "initrd=\"/boot/initramfs-5.10.0.img\"");
    assert_eq!(lines[5], "initrd=\"/boot/extra.img\"");
    assert_eq!(lines.len(), 8);
}

#[test]
fn id_drops_the_conf_suffix() {
    assert_eq!(id_from_filename("abcdef123456-5.10.0.conf"), "abcdef123456-5.10.0");
    assert_eq!(id_from_filename("plain-name"), "plain-name");
}

#[test]
fn identity_contents_are_trimmed() {
    assert_eq!(trim_ws("abcdef123456\n"), "abcdef123456");
    assert_eq!(trim_ws("  spaced\t\r\n"), "spaced");
    assert_eq!(trim_ws(""), "");
}

#[test]
fn trim_covers_all_unicode_whitespace() {
    assert_eq!(trim_ws("\u{0B}id\u{0C}"), "id");
    assert_eq!(trim_ws("\u{85}\u{A0}id\u{2028}\u{3000}"), "id");
    assert_eq!(trim_ws("\u{2003}id\u{200A}"), "id");
    assert_eq!("\u{0B}id\u{0C}".trim(), trim_ws("\u{0B}id\u{0C}"));
}
