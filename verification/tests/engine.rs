use carrot::graphics2d::engine::{Engine, Layers};
use carrot::graphics2d::layer::Layer;

#[test]
fn add_layer_files_a_fresh_layer_under_its_label() {
    let mut e: Engine<u8> = Engine::new();
    e.add_layer("ground".to_string());
    let l = e.get_layer("ground").unwrap();
    assert_eq!(l.title(), &Some("ground".to_string()));
    assert!(l.get_queue().is_empty());
    assert!(e.get_layer("sky").is_none());
}

#[test]
fn add_layer_replaces_a_layer_with_the_same_label() {
    let mut e: Engine<u8> = Engine::new();
    e.add_layer("a".to_string());
    e.get_layer_mut("a").unwrap().push(1, 1);
    e.add_layer("a".to_string());
    assert!(e.get_layer("a").unwrap().get_queue().is_empty());
}

#[test]
fn remove_layer_undoes_add_layer() {
    let mut e: Engine<u8> = Engine::new();
    e.add_layer("a".to_string());
    e.add_layer("b".to_string());
    e.remove_layer("a".to_string());
    assert!(e.get_layer("a").is_none());
    assert!(e.get_layer("b").is_some());
    e.remove_layer("zzz".to_string());
    assert!(e.get_layer("b").is_some());
}

#[test]
fn get_layer_mut_changes_the_layer_in_place() {
    let mut e: Engine<u8> = Engine::new();
    e.add_layer("a".to_string());
    e.get_layer_mut("a").unwrap().push(3, 9);
    assert_eq!(e.get_layer("a").unwrap().get_queue().get(&3), Some(&9));
    assert!(e.get_layer_mut("none").is_none());
}

#[test]
fn set_layers_replaces_all_layers() {
    let mut e: Engine<u8> = Engine::new();
    e.add_layer("old".to_string());
    let mut ls: Layers<u8> = Layers::new();
    ls.insert("new".to_string(), Layer::new(None));
    e.set_layers(ls);
    assert!(e.get_layer("old").is_none());
    assert_eq!(e.get_layer("new").unwrap().title(), &None);
}

#[test]
fn layers_insert_get_remove() {
    let mut ls: Layers<u8> = Layers::new();
    ls.insert("x".to_string(), Layer::new(Some("one".to_string())));
    ls.insert("x".to_string(), Layer::new(Some("two".to_string())));
    assert_eq!(ls.get("x").unwrap().title(), &Some("two".to_string()));
    let gone = ls.remove("x").unwrap();
    assert_eq!(gone.title(), &Some("two".to_string()));
    assert!(ls.get("x").is_none());
    assert!(ls.remove("x").is_none());
}
