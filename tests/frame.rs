use vike::frame::{ArrayOffset, DrawRange, InstanceSource, Placement, PreFrameData};
use vike::store::GameObjectStore;
use vike::{MAX_INSTANCES, MAX_LIGHTS};

type Store = GameObjectStore<u32, u8, u16>;

fn range(model: Option<&str>, start: u32, end: u32) -> DrawRange {
    DrawRange { model: model.map(|m| m.to_string()), start, end }
}

fn frame(store: &Store) -> PreFrameData {
    assert!(store.fits_instance_buffer());
    store.pre_frame()
}

fn object(i: usize, offset: Option<(usize, u32)>) -> InstanceSource {
    InstanceSource {
        placement: Placement::Object(i),
        offset: offset.map(|(array, index)| ArrayOffset { array, index }),
    }
}

fn light(i: usize, offset: Option<(usize, u32)>) -> InstanceSource {
    InstanceSource {
        placement: Placement::Light(i),
        offset: offset.map(|(array, index)| ArrayOffset { array, index }),
    }
}

fn cube() -> Option<String> {
    Some("cube".to_string())
}

#[test]
fn one_model_two_objects_share_one_range() {
    let mut store = Store::new();
    store.new_game_object("A", 0, cube());
    let f = frame(&store);
    assert_eq!(f.instances.len(), 1);
    assert_eq!(f.objects, vec![range(Some("cube"), 0, 1)]);

    store.new_game_object("B", 0, cube());
    store.new_array("B", "row", 5, 0);
    let f = frame(&store);
    assert_eq!(f.instances.len(), 6);
    assert_eq!(f.objects, vec![range(Some("cube"), 0, 6)]);
    assert_eq!(f.lights, vec![range(None, 6, 6)]);
    let mut expected = vec![object(0, None)];
    for i in 0..5 {
        expected.push(object(1, Some((0, i))));
    }
    assert_eq!(f.instances, expected);
}

#[test]
fn no_array_gives_one_instance() {
    let mut store = Store::new();
    store.new_game_object("a", 0, cube());
    assert_eq!(frame(&store).instances, vec![object(0, None)]);
}

#[test]
fn arrays_add_up() {
    let mut store = Store::new();
    store.new_game_object("a", 0, cube());
    store.new_array("a", "x", 2, 0);
    store.new_array("a", "y", 3, 0);
    store.new_array("other", "z", 4, 0);
    let f = frame(&store);
    assert_eq!(
        f.instances,
        vec![
            object(0, Some((0, 0))),
            object(0, Some((0, 1))),
            object(0, Some((1, 0))),
            object(0, Some((1, 1))),
            object(0, Some((1, 2))),
        ]
    );
}

#[test]
fn empty_array_hides_its_target() {
    let mut store = Store::new();
    store.new_game_object("a", 0, cube());
    store.new_array("a", "none", 0, 0);
    let f = frame(&store);
    assert!(f.instances.is_empty());
    assert_eq!(f.objects, vec![range(None, 0, 0)]);
}

#[test]
fn dangling_array_gives_nothing() {
    let mut store = Store::new();
    store.new_array("ghost", "x", 3, 0);
    let f = frame(&store);
    assert!(f.instances.is_empty());
}

#[test]
fn empty_store_gives_empty_frame() {
    let store = Store::new();
    let f = frame(&store);
    assert!(f.instances.is_empty());
    assert!(f.light_slots.is_empty());
    assert_eq!(f.num_lights, 0);
    assert_eq!(f.objects, vec![range(None, 0, 0)]);
    assert_eq!(f.lights, vec![range(None, 0, 0)]);
}

#[test]
fn models_in_name_order_lights_after_objects() {
    let mut store = Store::new();
    store.new_game_object("o1", 0, Some("zeta".to_string()));
    store.new_game_object("o2", 0, Some("alpha".to_string()));
    store.new_game_object("o3", 0, Some("zeta".to_string()));
    store.new_game_object("camera", 0, None);
    store.new_light("l1", 0, Some("bulb".to_string()), 1);
    store.new_light("l2", 0, None, 2);
    store.new_array("l1", "ring", 2, 0);
    let f = frame(&store);
    assert_eq!(
        f.objects,
        vec![range(Some("alpha"), 0, 1), range(Some("zeta"), 1, 3)]
    );
    assert_eq!(f.lights, vec![range(Some("bulb"), 3, 5)]);
    assert_eq!(
        f.instances,
        vec![
            object(2, None),
            object(1, None),
            object(3, None),
            light(0, Some((0, 0))),
            light(0, Some((0, 1))),
        ]
    );
    assert_eq!(f.num_lights, 3);
    assert_eq!(
        f.light_slots,
        vec![light(0, Some((0, 0))), light(0, Some((0, 1))), light(1, None)]
    );
}

#[test]
fn ranges_tile_the_buffer() {
    let mut store = Store::new();
    for (i, model) in ["m1", "m2", "m3"].iter().enumerate() {
        let name = format!("obj{}", i);
        store.new_game_object(&name, 0, Some(model.to_string()));
        store.new_array(&name, "a", i as u32 + 1, 0);
        let lname = format!("light{}", i);
        store.new_light(&lname, 0, Some(model.to_string()), 0);
    }
    let f = frame(&store);
    let mut cursor = 0;
    for r in f.objects.iter().chain(f.lights.iter()) {
        assert_eq!(r.start, cursor);
        assert!(r.end >= r.start);
        cursor = r.end;
    }
    assert_eq!(cursor as usize, f.instances.len());
    assert_eq!(f.instances.len(), 1 + 2 + 3 + 3);
}

#[test]
fn light_block_is_capped() {
    let mut store = Store::new();
    for i in 0..(MAX_LIGHTS + 2) {
        store.new_light(&format!("l{:04}", i), 0, None, 0);
    }
    let f = frame(&store);
    assert_eq!(f.num_lights as usize, MAX_LIGHTS);
    assert_eq!(f.light_slots.len(), MAX_LIGHTS);
    assert_eq!(f.light_slots[0], light(0, None));
    assert_eq!(f.light_slots[MAX_LIGHTS - 1], light(MAX_LIGHTS - 1, None));
    assert!(f.instances.is_empty());
}

#[test]
fn light_block_counts_array_instances() {
    let mut store = Store::new();
    store.new_light("sun", 0, None, 0);
    store.new_array("sun", "many", 200, 0);
    let f = frame(&store);
    assert_eq!(f.num_lights as usize, MAX_LIGHTS);
    assert_eq!(f.light_slots[127], light(0, Some((0, 127))));

    let mut small = Store::new();
    small.new_light("sun", 0, None, 0);
    small.new_array("sun", "few", 3, 0);
    assert_eq!(frame(&small).num_lights, 3);
}

#[test]
fn pre_frame_twice_is_identical() {
    let mut store = Store::new();
    store.new_game_object("b", 0, cube());
    store.new_game_object("a", 0, Some("ball".to_string()));
    store.new_light("l", 0, cube(), 0);
    store.new_array("b", "x", 4, 0);
    let f1 = frame(&store);
    let f2 = frame(&store);
    assert_eq!(f1.instances, f2.instances);
    assert_eq!(f1.objects, f2.objects);
    assert_eq!(f1.lights, f2.lights);
    assert_eq!(f1.light_slots, f2.light_slots);
    assert_eq!(f1.num_lights, f2.num_lights);
}

#[test]
fn instance_buffer_capacity() {
    let mut store = Store::new();
    store.new_game_object("a", 0, cube());
    store.new_array("a", "x", MAX_INSTANCES as u32, 0);
    assert!(store.fits_instance_buffer());
    store.new_light("l", 0, cube(), 0);
    assert!(!store.fits_instance_buffer());
    store.new_light("l", 0, None, 0);
    assert!(store.fits_instance_buffer());
}
