use realm_web::config::{
    alphanumeric_from_bytes, nonblank_setting, parse_reserved_ports, random_alphanumeric, resolve_auth_credentials,
    resolve_jwt_secret, setting_i64, setting_u16,
};

#[test]
fn random_alphanumeric_format() {
    let s = random_alphanumeric(32);
    assert_eq!(s.len(), 32);
    assert!(
        s.chars()
            .all(|c| c.is_ascii_lowercase() || c.is_ascii_digit())
    );
}

#[test]
fn random_alphanumeric_lengths() {
    assert_eq!(random_alphanumeric(0), "");
    assert_eq!(random_alphanumeric(1).len(), 1);
    assert_eq!(random_alphanumeric(100).len(), 100);
}

#[test]
fn settings_are_trimmed_and_blank_ones_ignored() {
    assert_eq!(nonblank_setting(Some("  admin \t")), Some("admin".to_string()));
    assert_eq!(nonblank_setting(Some(" \n ")), None);
    assert_eq!(nonblank_setting(Some("")), None);
    assert_eq!(nonblank_setting(None), None);
}

#[test]
fn numeric_settings_fall_back_to_default() {
    assert_eq!(setting_u16(Some("8080"), 888), 8080);
    assert_eq!(setting_u16(Some("+8080"), 888), 8080);
    assert_eq!(setting_u16(Some(" 8080"), 888), 888);
    assert_eq!(setting_u16(Some("65536"), 888), 888);
    assert_eq!(setting_u16(None, 888), 888);
    assert_eq!(setting_i64(Some("-12"), 5), -12);
    assert_eq!(setting_i64(Some("9223372036854775807"), 5), i64::MAX);
    assert_eq!(setting_i64(Some("-9223372036854775808"), 5), i64::MIN);
    assert_eq!(setting_i64(Some("9223372036854775808"), 5), 5);
    assert_eq!(setting_i64(Some("-"), 5), 5);
    assert_eq!(setting_i64(Some("1h"), 5), 5);
}

#[test]
fn jwt_secret_from_setting_or_random() {
    assert_eq!(resolve_jwt_secret(Some("  s3cr3t ")), "s3cr3t");
    let random = resolve_jwt_secret(Some("   "));
    assert_eq!(random.len(), 36);
    assert_eq!(resolve_jwt_secret(None).len(), 36);
    assert_ne!(resolve_jwt_secret(None), resolve_jwt_secret(None));
}

#[test]
fn credentials_need_both_settings() {
    let (u, p, generated) = resolve_auth_credentials(Some(" admin "), Some("pw"));
    assert_eq!((u.as_str(), p.as_str(), generated), ("admin", "pw", false));
    let (u, p, generated) = resolve_auth_credentials(Some("admin"), None);
    assert!(generated);
    assert_eq!(u.len(), 8);
    assert_eq!(p.len(), 16);
    let (_, _, generated) = resolve_auth_credentials(Some("admin"), Some("  "));
    assert!(generated);
}

#[test]
fn reserved_ports_default_and_list() {
    assert_eq!(parse_reserved_ports(None), vec![22, 80, 443, 888]);
    assert_eq!(parse_reserved_ports(Some("22, 80,x,,443")), vec![22, 80, 443]);
    assert_eq!(parse_reserved_ports(Some("")), Vec::<u16>::new());
}

#[test]
fn alphanumeric_from_bytes_maps_each_byte() {
    let bytes: Vec<u8> = vec![0, 25, 26, 35, 36, 255, 7];
    assert_eq!(alphanumeric_from_bytes(&bytes, 6), "az09ad");
    assert_eq!(alphanumeric_from_bytes(&bytes, 0), "");
}

#[test]
fn generated_jwt_secret_is_a_v4_uuid() {
    let s = resolve_jwt_secret(None);
    let c: Vec<char> = s.chars().collect();
    assert_eq!(c.len(), 36);
    for (i, ch) in c.iter().enumerate() {
        if [8, 13, 18, 23].contains(&i) {
            assert_eq!(*ch, '-');
        } else {
            assert!(ch.is_ascii_digit() || ('a'..='f').contains(ch));
        }
    }
    assert_eq!(c[14], '4');
    assert!(['8', '9', 'a', 'b'].contains(&c[19]));
}
