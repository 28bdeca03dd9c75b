use grubby::options::{separate_root_param, update_options};

fn split(options: &str) -> (String, String) {
    separate_root_param(options)
}

#[test]
fn single_root_token_is_isolated() {
    let (args, root) = split("ro quiet root=/dev/sda1 rhgb");
    assert_eq!(args, "ro quiet rhgb");
    assert_eq!(root, "/dev/sda1");
}

#[test]
fn root_token_first() {
    let (args, root) = split("root=UUID=abcd ro quiet");
    assert_eq!(args, "ro quiet");
    assert_eq!(root, "UUID=abcd");
}

#[test]
fn root_token_alone() {
    let (args, root) = split("root=/dev/sda2");
    assert_eq!(args, "");
    assert_eq!(root, "/dev/sda2");
}

#[test]
fn no_root_token_keeps_input_unchanged() {
    let (args, root) = split("ro quiet rhgb");
    assert_eq!(args, "ro quiet rhgb");
    assert_eq!(root, "");
}

#[test]
fn empty_options() {
    let (args, root) = split("");
    assert_eq!(args, "");
    assert_eq!(root, "");
}

#[test]
fn doubled_spaces_survive_when_no_root_token() {
    let (args, root) = split("ro  quiet");
    assert_eq!(args, "ro  quiet");
    assert_eq!(root, "");
}

#[test]
fn last_of_multiple_root_tokens_wins() {
    let (args, root) = split("root=/dev/sda1 ro root=/dev/sdb2 quiet");
    assert_eq!(args, "ro quiet");
    assert_eq!(root, "/dev/sdb2");
}

#[test]
fn three_root_tokens_last_wins() {
    let (_, root) = split("root=a root=b root=c");
    assert_eq!(root, "c");
}

#[test]
fn update_removes_then_adds() {
    let updated = update_options("ro quiet rhgb", "rhgb", "debug");
    assert_eq!(updated, "ro quiet debug");
}

#[test]
fn update_does_not_duplicate_present_argument() {
    let updated = update_options("ro quiet", "", "quiet debug");
    assert_eq!(updated, "ro quiet debug");
}

#[test]
fn update_with_only_removals() {
    let updated = update_options("ro quiet debug", "quiet debug", "");
    assert_eq!(updated, "ro");
}

#[test]
fn update_on_empty_options() {
    let updated = update_options("", "", "ro quiet");
    assert_eq!(updated, "ro quiet");
}

#[test]
fn update_removes_every_occurrence() {
    let updated = update_options("a b a c a", "a", "");
    assert_eq!(updated, "b c");
}

#[test]
fn update_twice_equals_once() {
    let once = update_options("ro quiet rhgb", "rhgb", "debug loglevel=3");
    let twice = update_options(&once, "rhgb", "debug loglevel=3");
    assert_eq!(twice, once);
}

#[test]
fn update_twice_equals_once_with_overlapping_state() {
    let once = update_options("a b c", "b", "c d");
    let twice = update_options(&once, "b", "c d");
    assert_eq!(twice, once);
}

#[test]
fn update_twice_equals_once_when_a_token_is_added_and_removed() {
    let once = update_options("", "x", "x y");
    assert_eq!(once, "x y");
    let twice = update_options(&once, "x", "x y");
    assert_eq!(twice, once);
}

#[test]
fn update_keeps_a_token_both_removed_and_added() {
    let updated = update_options("a x b", "x", "x");
    assert_eq!(updated, "a x b");
}

#[test]
fn update_ignores_absent_removals() {
    let updated = update_options("ro quiet", "missing", "");
    assert_eq!(updated, "ro quiet");
}

#[test]
fn update_normalizes_doubled_spaces() {
    let updated = update_options(" ro  quiet ", "", "debug");
    assert_eq!(updated, "ro quiet debug");
}
