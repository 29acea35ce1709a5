use uspm::config::Config;

#[test]
fn default_configuration() {
    let c = Config::default();
    assert_eq!(
        c.mirrors(),
        &vec![
            "http://repo.wombatlinux.org".to_string(),
            "https://afroraydude.com/wl/repo".to_string()
        ]
    );
    assert_eq!(c.storage_location(), "/var/uspm/storage");
}

#[test]
fn storage_location_can_change() {
    let mut c = Config::default();
    c.set_storage_location("/tmp/elsewhere".to_string());
    assert_eq!(c.storage_location(), "/tmp/elsewhere");
}

#[test]
fn mirrors_add_and_remove() {
    let mut c = Config::default();
    c.add_mirror("http://extra".to_string());
    assert_eq!(c.mirrors().len(), 3);
    assert_eq!(c.mirrors()[2], "http://extra");
    c.remove_mirror("http://extra".to_string());
    assert_eq!(c.mirrors().len(), 2);
}

#[test]
fn remove_mirror_drops_every_copy() {
    let mut c = Config::default();
    c.add_mirror("http://dup".to_string());
    c.add_mirror("http://dup".to_string());
    c.remove_mirror("http://dup".to_string());
    assert!(!c.mirrors().iter().any(|m| m == "http://dup"));
    assert_eq!(c.mirrors().len(), 2);
}

#[test]
fn config_round_trip() {
    let mut c = Config::default();
    c.add_mirror("http://third.example".to_string());
    c.set_storage_location("/srv/pkgs".to_string());
    let text = c.encode();
    let back = Config::decode(&text).expect("decodes");
    assert_eq!(back.mirrors(), c.mirrors());
    assert_eq!(back.storage_location(), "/srv/pkgs");
}

#[test]
fn config_decode_rejects_garbage() {
    assert!(Config::decode("").is_none());
    assert!(Config::decode("nonsense").is_none());
    let mut text = Config::default().encode();
    text.push('!');
    assert!(Config::decode(&text).is_none());
}
