use schnuffel::codec::decode_config_response;
use schnuffel::config::{PluginConfig, UnknownFieldError};

fn enc_str_bytes_cfg(s: &str) -> Vec<u8> {
    let chars: Vec<char> = s.chars().collect();
    let mut out = Vec::new();
    out.extend_from_slice(&(chars.len() as u64).to_le_bytes());
    for c in chars {
        out.extend_from_slice(&(c as u32).to_le_bytes());
    }
    out
}

fn config_of(pairs: &[(&str, &str)]) -> PluginConfig {
    let mut b = Vec::new();
    b.extend_from_slice(&(pairs.len() as u64).to_le_bytes());
    for (k, v) in pairs {
        b.extend_from_slice(&enc_str_bytes_cfg(k));
        b.extend_from_slice(&enc_str_bytes_cfg(v));
    }
    decode_config_response(&b).unwrap()
}

#[test]
fn empty_config_has_no_fields() {
    let c = PluginConfig::new();
    assert_eq!(c.len(), 0);
    assert_eq!(c.field_names(), Vec::<String>::new());
}

#[test]
fn set_field_overwrites_declared_field() {
    let mut c = config_of(&[("api_key", "default"), ("depth", "1")]);
    assert_eq!(c.set_field("depth", "3"), Ok(()));
    assert_eq!(c.get_field("depth"), Some(&"3".to_string()));
    assert_eq!(c.get_field("api_key"), Some(&"default".to_string()));
    assert_eq!(c.len(), 2);
}

#[test]
fn set_field_unknown_name_is_reported_and_harmless() {
    let mut c = config_of(&[("api_key", "default")]);
    let before = c.clone();
    assert_eq!(c.set_field("nonexistent", "x"), Err(UnknownFieldError));
    assert_eq!(c, before);
    assert_eq!(c.len(), 1);
    assert_eq!(c.get_field("nonexistent"), None);
}

#[test]
fn set_field_cannot_add_to_empty_mapping() {
    let mut c = PluginConfig::new();
    assert_eq!(c.set_field("anything", "x"), Err(UnknownFieldError));
    assert_eq!(c.len(), 0);
}

#[test]
fn field_names_keep_declared_order() {
    let c = config_of(&[("zeta", "1"), ("alpha", "2"), ("mid", "3")]);
    let names = c.field_names();
    assert_eq!(names, vec!["zeta".to_string(), "alpha".to_string(), "mid".to_string()]);
}

#[test]
fn duplicate_keeps_entries_and_order() {
    let c = config_of(&[("a", "1"), ("b", "2")]);
    let d = c.duplicate();
    assert_eq!(c, d);
    assert_eq!(d.field_names(), vec!["a".to_string(), "b".to_string()]);
}
