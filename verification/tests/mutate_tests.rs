use grubby::mutate::{
    derive_version, default_initrd_path, plan_add_entry, plan_remove_entries, plan_update_args,
    AddError, RemoveAction, UpdateError,
};
use grubby::select::get_default_index;

#[test]
fn version_follows_the_marker() {
    assert_eq!(derive_version("/boot/vmlinuz-5.10.0"), "5.10.0");
}

#[test]
fn version_empty_without_marker() {
    assert_eq!(derive_version("/boot/bzImage"), "");
}

#[test]
fn version_empty_when_marker_ends_the_path() {
    assert_eq!(derive_version("/boot/vmlinuz-"), "");
}

#[test]
fn version_uses_the_last_marker() {
    assert_eq!(derive_version("/vmlinuz-old/vmlinuz-6.1.2"), "6.1.2");
}

#[test]
fn version_with_marker_at_the_start() {
    assert_eq!(derive_version("vmlinuz-4.18.0-80.el8"), "4.18.0-80.el8");
}

#[test]
fn synthesized_initrd_path() {
    assert_eq!(default_initrd_path("/boot", "5.10.0"), "/boot/initramfs-5.10.0.img");
}

#[test]
fn add_requires_a_title() {
    let r = plan_add_entry(&None, "/boot/vmlinuz-5.10.0", &None, &None, &None, &None, "/boot",
        "abc\n");
    assert_eq!(r.unwrap_err(), AddError::TitleMissing);
}

#[test]
fn add_derives_version_and_strips_prefix() {
    let r = plan_add_entry(
        &Some(String::from("Linux 5.10.0")),
        "/boot/vmlinuz-5.10.0",
        &None,
        &None,
        &None,
        &None,
        "/boot",
        "abcdef123456\n",
    )
    .unwrap();
    assert_eq!(r.version, "5.10.0");
    assert_eq!(r.linux, "/vmlinuz-5.10.0");
    assert_eq!(r.title, "Linux 5.10.0");
    assert_eq!(r.initrd, vec![String::from("/initramfs-5.10.0.img")]);
    assert_eq!(r.options, "");
    assert_eq!(r.grub_users, "$grub_users");
    assert_eq!(r.grub_arg, "--unrestricted");
    assert_eq!(r.grub_class, "kernel");
}

#[test]
fn add_composes_id_from_trimmed_identity() {
    let r = plan_add_entry(
        &Some(String::from("Linux 5.10.0")),
        "/boot/vmlinuz-5.10.0",
        &None,
        &None,
        &None,
        &None,
        "/boot",
        "abcdef123456\n",
    )
    .unwrap();
    assert_eq!(r.id, "abcdef123456-5.10.0");
}

#[test]
fn add_seeds_options_from_default_and_appends_args() {
    let r = plan_add_entry(
        &Some(String::from("T")),
        "/boot/vmlinuz-1",
        &Some(String::from("debug")),
        &None,
        &None,
        &Some(String::from("ro quiet")),
        "/boot",
        "id",
    )
    .unwrap();
    assert_eq!(r.options, "ro quiet debug");
}

#[test]
fn add_uses_args_verbatim_without_seed() {
    let r = plan_add_entry(
        &Some(String::from("T")),
        "/boot/vmlinuz-1",
        &Some(String::from("ro quiet")),
        &None,
        &None,
        &None,
        "/boot",
        "id",
    )
    .unwrap();
    assert_eq!(r.options, "ro quiet");
}

#[test]
fn add_keeps_both_initrd_paths() {
    let r = plan_add_entry(
        &Some(String::from("T")),
        "/boot/vmlinuz-1",
        &None,
        &Some(String::from("/boot/initramfs-1.img")),
        &Some(String::from("/boot/extra.img")),
        &None,
        "/boot",
        "id",
    )
    .unwrap();
    assert_eq!(r.initrd, vec![String::from("/initramfs-1.img"), String::from("/extra.img")]);
}

#[test]
fn add_without_prefix_keeps_paths_whole() {
    let r = plan_add_entry(
        &Some(String::from("T")),
        "/boot/vmlinuz-1",
        &None,
        &None,
        &None,
        &None,
        "",
        "id",
    )
    .unwrap();
    assert_eq!(r.linux, "/boot/vmlinuz-1");
    assert_eq!(r.initrd, vec![String::from("/initramfs-1.img")]);
}

#[test]
fn update_needs_some_arguments() {
    let r = plan_update_args(&None, &None);
    assert_eq!(r.unwrap_err(), UpdateError::ArgumentsMissing);
}

#[test]
fn update_accepts_one_side() {
    let r = plan_update_args(&Some(String::from("debug")), &None).unwrap();
    assert_eq!(r.0, "debug");
    assert_eq!(r.1, "");
    let r = plan_update_args(&None, &Some(String::from("quiet"))).unwrap();
    assert_eq!(r.0, "");
    assert_eq!(r.1, "quiet");
}

#[test]
fn remove_plan_unsets_default_before_its_delete() {
    let plan = plan_remove_entries(&vec![0, 2], get_default_index());
    assert_eq!(
        plan,
        vec![
            RemoveAction::UnsetDefault,
            RemoveAction::Delete(0),
            RemoveAction::Delete(2),
        ]
    );
}

#[test]
fn remove_plan_without_default_only_deletes() {
    let plan = plan_remove_entries(&vec![1, 2], get_default_index());
    assert_eq!(plan, vec![RemoveAction::Delete(1), RemoveAction::Delete(2)]);
}

#[test]
fn remove_plan_of_nothing_is_empty() {
    let plan = plan_remove_entries(&Vec::new(), get_default_index());
    assert_eq!(plan, Vec::<RemoveAction>::new());
}
