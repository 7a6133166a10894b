use vike::models::ModelCache;
use vike::store::GameObjectStore;

type Store = GameObjectStore<u32, u8, u16>;

fn names(store: &Store) -> Vec<String> {
    store.objects().iter().map(|o| o.name.clone()).collect()
}

#[test]
fn objects_are_kept_in_name_order() {
    let mut store = Store::new();
    store.new_game_object("b", 2, None);
    store.new_game_object("c", 3, Some("cube".to_string()));
    store.new_game_object("a", 1, None);
    assert_eq!(names(&store), vec!["a", "b", "c"]);
    assert_eq!(store.objects()[2].model.as_deref(), Some("cube"));
}

#[test]
fn names_order_by_bytes() {
    let mut store = Store::new();
    store.new_game_object("ab", 0, None);
    store.new_game_object("B", 0, None);
    store.new_game_object("a", 0, None);
    store.new_game_object("é", 0, None);
    assert_eq!(names(&store), vec!["B", "a", "ab", "é"]);
}

#[test]
fn reinserting_replaces() {
    let mut store = Store::new();
    store.new_game_object("a", 1, Some("cube".to_string()));
    store.new_game_object("a", 7, None);
    assert_eq!(store.objects().len(), 1);
    assert_eq!(store.objects()[0].transform, 7);
    assert_eq!(store.objects()[0].model, None);
}

#[test]
fn delete_object_hands_back_and_misses() {
    let mut store = Store::new();
    store.new_game_object("a", 1, None);
    store.new_game_object("b", 2, None);
    let gone = store.delete_object("a").unwrap();
    assert_eq!(gone.name, "a");
    assert_eq!(gone.transform, 1);
    assert!(store.delete_object("a").is_none());
    assert_eq!(names(&store), vec!["b"]);
}

#[test]
fn deleting_a_target_keeps_its_arrays() {
    let mut store = Store::new();
    store.new_game_object("a", 1, None);
    store.new_array("a", "row", 3, 0);
    store.delete_object("a");
    assert_eq!(store.arrays().len(), 1);
}

#[test]
fn object_lookup_changes_transform_in_place() {
    let mut store = Store::new();
    store.new_game_object("a", 1, None);
    *store.object("a").unwrap() = 9;
    assert_eq!(store.objects()[0].transform, 9);
    assert!(store.object("missing").is_none());
}

#[test]
fn lights_insert_replace_delete() {
    let mut store = Store::new();
    store.new_light("sun", 1, None, 10);
    store.new_light("lamp", 2, Some("bulb".to_string()), 20);
    store.new_light("sun", 3, None, 30);
    assert_eq!(store.lights().len(), 2);
    assert_eq!(store.lights()[0].name, "lamp");
    assert_eq!(store.lights()[1].transform, 3);
    assert_eq!(store.lights()[1].color, 30);
    *store.light("lamp").unwrap() = 5;
    *store.light_color("lamp").unwrap() = 6;
    assert_eq!(store.lights()[0].transform, 5);
    assert_eq!(store.lights()[0].color, 6);
    assert!(store.light("none").is_none());
    assert_eq!(store.delete_light("sun").unwrap().color, 30);
    assert!(store.delete_light("sun").is_none());
}

#[test]
fn arrays_replace_by_target_and_name() {
    let mut store = Store::new();
    store.new_array("b", "x", 1, 1);
    store.new_array("a", "y", 2, 2);
    store.new_array("a", "x", 3, 3);
    store.new_array("a", "y", 4, 4);
    let keys: Vec<(String, String, u32, u16)> = store
        .arrays()
        .iter()
        .map(|a| (a.target.clone(), a.name.clone(), a.num_instances, a.offset))
        .collect();
    assert_eq!(
        keys,
        vec![
            ("a".to_string(), "x".to_string(), 3, 3),
            ("a".to_string(), "y".to_string(), 4, 4),
            ("b".to_string(), "x".to_string(), 1, 1),
        ]
    );
    assert_eq!(store.delete_array("a", "y").unwrap().num_instances, 4);
    assert!(store.delete_array("a", "y").is_none());
    assert!(store.delete_array("zzz", "x").is_none());
    assert_eq!(store.arrays().len(), 2);
}

#[test]
fn default_store_is_empty() {
    let store = Store::default();
    assert!(store.objects().is_empty());
    assert!(store.lights().is_empty());
    assert!(store.arrays().is_empty());
}

#[test]
fn model_cache_hits_and_replaces() {
    let mut cache: ModelCache<u32> = ModelCache::new();
    assert!(cache.get("cube").is_none());
    cache.insert("cube", 1);
    cache.insert("ball", 2);
    assert_eq!(cache.get("cube"), Some(&1));
    assert_eq!(cache.get("ball"), Some(&2));
    cache.insert("cube", 3);
    assert_eq!(cache.get("cube"), Some(&3));
    assert!(cache.get("cub").is_none());
}
