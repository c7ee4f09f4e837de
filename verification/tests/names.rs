use rehydrate::device::is_safe_entry_name;
use rehydrate::text::trim;

#[test]
fn legitimate_names_are_accepted() {
    assert!(is_safe_entry_name("abc.metadata"));
    assert!(is_safe_entry_name("6132ec00-9f86-4ad8-aacf-b40b5c3a5fc9.content"));
    assert!(is_safe_entry_name("page-1.rm"));
    assert!(is_safe_entry_name("thumbnails"));
    assert!(is_safe_entry_name("a"));
}

#[test]
fn parent_traversal_payloads_are_rejected() {
    assert!(!is_safe_entry_name(".."));
    assert!(!is_safe_entry_name("../etc/shadow"));
    assert!(!is_safe_entry_name("../../home/root/.ssh/authorized_keys"));
    assert!(!is_safe_entry_name("foo/../bar"));
    assert!(!is_safe_entry_name("subdir/file"));
}

#[test]
fn backslash_payloads_are_rejected() {
    assert!(!is_safe_entry_name("..\\windows\\system32"));
    assert!(!is_safe_entry_name("foo\\bar"));
}

#[test]
fn current_dir_and_empty_are_rejected() {
    assert!(!is_safe_entry_name("."));
    assert!(!is_safe_entry_name(""));
}

#[test]
fn the_same_characters_are_white_space_everywhere() {
    for c in '\0'..=char::MAX {
        let padded = format!("{c}x{c}");
        let expected = if c.is_whitespace() { "x" } else { padded.as_str() };
        assert_eq!(trim(&padded), expected, "{:x}", c as u32);
    }
}
