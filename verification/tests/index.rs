use bug_graph::index::{Index, IndexKey};
use uuid::Uuid;

#[test]
fn add_get() {
    let set_name = "field";
    let keystr = "akey";
    let key = IndexKey::new(set_name, keystr.as_bytes());
    let val = Uuid::new_v4().as_u128();
    let mut indx = Index::new();

    assert_eq!(indx.get_or_insert_with(&key, || val.clone()), val);
    assert_eq!(indx.get(&key).unwrap(), val);
}

#[test]
fn an_entry_is_made_once() {
    let mut index = Index::new();
    let key = IndexKey::new("field", b"akey");
    assert_eq!(index.get(&key), None);
    assert_eq!(index.get_or_insert_with(&key, || 1), 1);
    assert_eq!(index.get_or_insert_with(&key, || 2), 1);
    assert_eq!(index.get(&key), Some(1));
}

#[test]
fn sets_and_keys_tell_entries_apart() {
    let mut index = Index::new();
    let places: [(&str, &[u8]); 6] = [
        ("field", b"akey"),
        ("field", b"akez"),
        ("field", b"ake"),
        ("field", b""),
        ("fiele", b"akey"),
        ("", b"akey"),
    ];
    for (i, (set_name, key)) in places.iter().enumerate() {
        let key = IndexKey::new(set_name, key);
        assert_eq!(index.get(&key), None);
        assert_eq!(index.get_or_insert_with(&key, || 10 + i as u128), 10 + i as u128);
    }
    for (i, (set_name, key)) in places.iter().enumerate() {
        assert_eq!(index.get(&IndexKey::new(set_name, key)), Some(10 + i as u128));
    }
    assert_eq!(index.get(&IndexKey::new("field", b"akeyy")), None);
}
