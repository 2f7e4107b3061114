use atlas_packer::atlas_key::{bool_as_int, AtlasEntry, AtlasKey};

fn entry(x: u32) -> AtlasEntry {
    AtlasEntry::new(x, x + 1, 2, 3, false)
}

#[test]
fn atlas_entry_new_fields() {
    let e = AtlasEntry::new(1, 2, 3, 4, true);
    assert_eq!(e, AtlasEntry { x: 1, y: 2, width: 3, height: 4, rotated: true });
}

#[test]
fn bool_as_int_values() {
    assert_eq!(bool_as_int(true), 1);
    assert_eq!(bool_as_int(false), 0);
}

#[test]
fn key_insert_then_get() {
    let mut k = AtlasKey::new();
    assert_eq!(k.get(&"a".to_string()), None);
    k.insert("a".to_string(), entry(1));
    k.insert("b".to_string(), entry(2));
    assert_eq!(k.get(&"a".to_string()), Some(entry(1)));
    assert_eq!(k.get(&"b".to_string()), Some(entry(2)));
    assert_eq!(k.get(&"c".to_string()), None);
    assert_eq!(k.entries().len(), 2);
}

#[test]
fn key_insert_replaces_same_name() {
    let mut k = AtlasKey::new();
    k.insert("a".to_string(), entry(1));
    k.insert("a".to_string(), entry(7));
    assert_eq!(k.get(&"a".to_string()), Some(entry(7)));
    assert_eq!(k.entries().len(), 1);
}

#[test]
fn key_clear_empties() {
    let mut k = AtlasKey::new();
    k.insert("a".to_string(), entry(1));
    k.clear();
    assert_eq!(k.get(&"a".to_string()), None);
    assert_eq!(k.entries().len(), 0);
}
