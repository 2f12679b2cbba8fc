use smart_quiz::protocol::{asset_route, content_type, percent_decode, strip_assets_prefix, AssetError};

#[test]
fn strips_redundant_assets_prefix() {
    assert_eq!(strip_assets_prefix("assets/B卷-7b.png"), "B卷-7b.png");
    assert_eq!(strip_assets_prefix("B卷-7b.png"), "B卷-7b.png");
    assert_eq!(strip_assets_prefix("sub/dir.png"), "sub/dir.png");
}

#[test]
fn decodes_percent_encoded_chinese_filename() {
    assert_eq!(percent_decode("/smart-core/assets/B%E5%8D%B7-7b468950.png"),
               "/smart-core/assets/B卷-7b468950.png");
    assert_eq!(percent_decode("a%20b%2Fc"), "a b/c");
}

#[test]
fn keeps_malformed_and_plain_paths() {
    assert_eq!(percent_decode("plain/path.png"), "plain/path.png");
    assert_eq!(percent_decode("100%"), "100%");
    assert_eq!(percent_decode("%zz"), "%zz");
}

#[test]
fn percent_decode_needs_two_hex_digits() {
    assert_eq!(percent_decode("%41"), "A");
    assert_eq!(percent_decode("x%4"), "x%4");
    assert_eq!(percent_decode("%e5%8d%b7"), "卷");
}

#[test]
fn routes_bank_asset_paths() {
    assert_eq!(asset_route("/smart-core/assets/B卷-7b.png"),
               Ok(("smart-core".to_string(), "B卷-7b.png".to_string())));
    assert_eq!(asset_route("//bank/sub/img.png"), Ok(("bank".to_string(), "sub/img.png".to_string())));
    assert_eq!(asset_route("/bank"), Err(AssetError::BadRequest));
    assert_eq!(asset_route("/bank/"), Err(AssetError::BadRequest));
    assert_eq!(asset_route("//x.png"), Err(AssetError::BadRequest));
    assert_eq!(asset_route("/bank/../etc/passwd"), Err(AssetError::Forbidden));
    assert_eq!(asset_route("/bank/a\\..\\b"), Err(AssetError::Forbidden));
    assert_eq!(asset_route("/ba..nk/a.png"), Err(AssetError::Forbidden));
    assert_eq!(asset_route("/bank/a..b.png"), Ok(("bank".to_string(), "a..b.png".to_string())));
}

#[test]
fn routes_never_leave_the_asset_directory() {
    assert_eq!(asset_route(&percent_decode("/b/%2Fetc%2Fpasswd")), Err(AssetError::Forbidden));
    assert_eq!(asset_route("/b//x"), Err(AssetError::Forbidden));
    assert_eq!(asset_route("/b/assets//x"), Err(AssetError::Forbidden));
    assert_eq!(asset_route("/b/\\\\server\\x"), Err(AssetError::Forbidden));
    assert_eq!(asset_route("/b/C:\\x.png"), Err(AssetError::Forbidden));
    assert_eq!(asset_route("/b/c:x.png"), Err(AssetError::Forbidden));
    assert_eq!(asset_route("/C:/x.png"), Err(AssetError::Forbidden));
    assert_eq!(asset_route("/\\etc/x.png"), Err(AssetError::Forbidden));
    assert_eq!(asset_route("/b/1:x.png"), Ok(("b".to_string(), "1:x.png".to_string())));
    assert_eq!(asset_route("/b/sub/C:x.png"), Ok(("b".to_string(), "sub/C:x.png".to_string())));
}

#[test]
fn content_types_by_extension() {
    assert_eq!(content_type("png"), "image/png");
    assert_eq!(content_type("JPG"), "image/jpeg");
    assert_eq!(content_type("jpeg"), "image/jpeg");
    assert_eq!(content_type("Svg"), "image/svg+xml");
    assert_eq!(content_type("webp"), "image/webp");
    assert_eq!(content_type("gif"), "image/gif");
    assert_eq!(content_type("bmp"), "image/bmp");
    assert_eq!(content_type("txt"), "application/octet-stream");
    assert_eq!(content_type(""), "application/octet-stream");
}

#[test]
fn fully_encoded_paths_decode_back() {
    assert_eq!(percent_decode("%61%20%62"), "a b");
    assert_eq!(percent_decode("%2F%E5%8D%B7"), "/卷");
    assert_eq!(percent_decode("%2f%e5%8d%b7"), "/卷");
}
