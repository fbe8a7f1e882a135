use glide_core::cluster_scan_container::get_cluster_scan_cursor;
use glide_core::cluster_scan_container::insert_cluster_scan_cursor;
use glide_core::cluster_scan_container::insert_cluster_scan_cursor_with_id;
use glide_core::cluster_scan_container::remove_scan_state_cursor;
use glide_core::cluster_scan_container::ScanContainer;
use glide_core::error::GlideError;
use std::sync::Arc;

#[test]
fn cursor_lifecycle() {
    let mut container: ScanContainer<String> = ScanContainer::new();
    let c1 = Arc::new("cursor one".to_string());
    let c2 = Arc::new("cursor two".to_string());

    let token = insert_cluster_scan_cursor(&mut container, c1.clone());
    assert_ne!(token, insert_cluster_scan_cursor(&mut container, c2.clone()));

    let found = get_cluster_scan_cursor(&container, token.clone()).unwrap();
    assert_eq!(found, c1);
    assert!(Arc::ptr_eq(&found, &c1));

    remove_scan_state_cursor(&mut container, token.clone());
    assert_eq!(get_cluster_scan_cursor(&container, token), Err(GlideError::InvalidCursor));
}

#[test]
fn tokens_have_21_url_safe_characters() {
    let mut container: ScanContainer<u32> = ScanContainer::new();
    for n in 0..40u32 {
        let token = insert_cluster_scan_cursor(&mut container, Arc::new(n));
        assert_eq!(token.chars().count(), 21);
        assert!(token.chars().all(|c| c.is_ascii_alphanumeric() || c == '_' || c == '-'));
        assert_eq!(*get_cluster_scan_cursor(&container, token).unwrap(), n);
    }
}

#[test]
fn an_unknown_token_is_an_invalid_cursor() {
    let mut container: ScanContainer<u32> = ScanContainer::new();
    assert_eq!(
        get_cluster_scan_cursor(&container, "missing".to_string()),
        Err(GlideError::InvalidCursor)
    );
    remove_scan_state_cursor(&mut container, "missing".to_string());
    assert_eq!(
        get_cluster_scan_cursor(&container, String::new()),
        Err(GlideError::InvalidCursor)
    );
}

#[test]
fn a_cursor_stored_under_a_given_token_is_found_there() {
    let mut container: ScanContainer<u32> = ScanContainer::new();
    insert_cluster_scan_cursor_with_id(&mut container, "a".to_string(), Arc::new(1));
    insert_cluster_scan_cursor_with_id(&mut container, "b".to_string(), Arc::new(2));
    assert_eq!(get_cluster_scan_cursor(&container, "a".to_string()), Ok(Arc::new(1)));
    assert_eq!(get_cluster_scan_cursor(&container, "b".to_string()), Ok(Arc::new(2)));

    insert_cluster_scan_cursor_with_id(&mut container, "a".to_string(), Arc::new(3));
    assert_eq!(get_cluster_scan_cursor(&container, "a".to_string()), Ok(Arc::new(3)));

    remove_scan_state_cursor(&mut container, "a".to_string());
    assert_eq!(
        get_cluster_scan_cursor(&container, "a".to_string()),
        Err(GlideError::InvalidCursor)
    );
    assert_eq!(get_cluster_scan_cursor(&container, "b".to_string()), Ok(Arc::new(2)));
}
