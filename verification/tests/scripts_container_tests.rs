use glide_core::scripts_container::add_script;
use glide_core::scripts_container::add_script_with_hash;
use glide_core::scripts_container::get_script;
use glide_core::scripts_container::reference_count;
use glide_core::scripts_container::remove_script;
use glide_core::scripts_container::try_add_script;
use glide_core::scripts_container::ScriptsContainer;
use std::sync::Arc;

fn is_hex_digest(text: &str) -> bool {
    text.len() == 40 && text.chars().all(|c| c.is_ascii_digit() || ('a'..='f').contains(&c))
}

#[test]
fn script_reference_counting() {
    let mut container = ScriptsContainer::new();
    let digest = add_script(&mut container, b"FOO");
    assert_eq!(add_script(&mut container, b"FOO"), digest);
    assert_eq!(reference_count(&container, &digest), 2);

    remove_script(&mut container, &digest);
    let body = get_script(&container, &digest);
    assert!(body.is_some());
    assert_eq!(&body.unwrap()[..], b"FOO");
    assert_eq!(reference_count(&container, &digest), 1);

    remove_script(&mut container, &digest);
    assert!(get_script(&container, &digest).is_none());
    assert_eq!(reference_count(&container, &digest), 0);
}

#[test]
fn the_key_is_the_sha1_digest_in_lowercase_hex() {
    let mut container = ScriptsContainer::new();
    assert_eq!(add_script(&mut container, b""), "da39a3ee5e6b4b0d3255bfef95601890afd80709");
    assert_eq!(
        add_script(&mut container, b"The quick brown fox jumps over the lazy dog"),
        "2fd4e1c67a2d28fced849ee1bb76e7391b93eb12"
    );
    assert_eq!(
        add_script(&mut container, b"Hello World!"),
        "2ef7bde608ce5404e97d5f042f95f89f1c232871"
    );
    let digest = add_script(&mut container, b"return redis.call('GET', KEYS[1])");
    assert!(is_hex_digest(&digest));
}

#[test]
fn add_then_remove_restores_the_cache() {
    let mut container = ScriptsContainer::new();
    let kept = add_script(&mut container, b"return 1");

    let digest = add_script(&mut container, b"return 2");
    remove_script(&mut container, &digest);
    assert!(get_script(&container, &digest).is_none());
    assert_eq!(reference_count(&container, &kept), 1);
    assert_eq!(&get_script(&container, &kept).unwrap()[..], b"return 1");

    let again = add_script(&mut container, b"return 1");
    assert_eq!(again, kept);
    remove_script(&mut container, &again);
    assert_eq!(reference_count(&container, &kept), 1);
    assert_eq!(&get_script(&container, &kept).unwrap()[..], b"return 1");
}

#[test]
fn removing_an_absent_script_is_silent() {
    let mut container = ScriptsContainer::new();
    remove_script(&mut container, "da39a3ee5e6b4b0d3255bfef95601890afd80709");
    assert!(get_script(&container, "da39a3ee5e6b4b0d3255bfef95601890afd80709").is_none());
    let digest = add_script(&mut container, b"x");
    remove_script(&mut container, "not a digest");
    assert_eq!(reference_count(&container, &digest), 1);
}

#[test]
fn readers_share_the_stored_body() {
    let mut container = ScriptsContainer::new();
    let digest = add_script(&mut container, b"shared");
    let one = get_script(&container, &digest).unwrap();
    let other = get_script(&container, &digest).unwrap();
    assert!(Arc::ptr_eq(&one, &other));
    remove_script(&mut container, &digest);
    assert_eq!(&one[..], b"shared");
}

#[test]
fn the_stored_body_is_kept_when_a_script_is_added_again() {
    let mut container = ScriptsContainer::new();
    add_script_with_hash(&mut container, "k".to_string(), b"first");
    add_script_with_hash(&mut container, "k".to_string(), b"second");
    assert_eq!(reference_count(&container, "k"), 2);
    assert_eq!(&get_script(&container, "k").unwrap()[..], b"first");
    add_script_with_hash(&mut container, "other".to_string(), b"second");
    assert_eq!(&get_script(&container, "other").unwrap()[..], b"second");
    assert_eq!(reference_count(&container, "other"), 1);
}

#[test]
fn try_add_script_adds_like_add_script() {
    let mut container = ScriptsContainer::new();
    let digest = try_add_script(&mut container, b"FOO");
    assert!(digest.is_some());
    let digest = digest.unwrap();
    assert_eq!(try_add_script(&mut container, b"FOO"), Some(digest.clone()));
    assert_eq!(add_script(&mut container, b"FOO"), digest);
    assert_eq!(reference_count(&container, &digest), 3);
}
