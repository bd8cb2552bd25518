use gridpath::cache::{cache_control_value, is_cacheable, MAX_AGE_SECONDS};

#[test]
fn fixed_assets_are_cacheable() {
    for content_type in [
        "text/css",
        "application/javascript",
        "image/svg+xml",
        "image/webp",
        "font/woff2",
        "image/png",
    ] {
        assert!(is_cacheable(content_type), "{}", content_type);
    }
}

#[test]
fn other_content_is_not_cacheable() {
    for content_type in ["text/html", "application/json", "", "text/css; charset=utf-8", "TEXT/CSS", "image/jpeg"] {
        assert!(!is_cacheable(content_type), "{}", content_type);
    }
}

#[test]
fn cacheable_content_is_kept_for_a_day() {
    assert_eq!(MAX_AGE_SECONDS, 60 * 60 * 24);
    assert_eq!(cache_control_value(), "public, max-age=86400");
    assert_eq!(cache_control_value(), format!("public, max-age={}", MAX_AGE_SECONDS));
}
