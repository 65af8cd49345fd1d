use carrot::geometry::render_object::{InLayerRenderObject, RenderError, RenderObject};
use carrot::geometry::triangulation::TriangulateError;
use carrot::graphics2d::layer::Layer;

#[derive(Debug, Clone, PartialEq)]
struct Mesh {
    vertices: Vec<char>,
    indices: Vec<u32>,
    fails: bool,
}

impl RenderObject for Mesh {
    type Vertex = char;

    fn render(&self) -> Result<(Vec<char>, Vec<u32>), RenderError> {
        if self.fails {
            Err(RenderError::Triangulate(TriangulateError::NotEnoughPoints))
        } else {
            Ok((self.vertices.clone(), self.indices.clone()))
        }
    }
}

fn mesh(vertices: &[char], indices: &[u32]) -> Mesh {
    Mesh { vertices: vertices.to_vec(), indices: indices.to_vec(), fails: false }
}

#[test]
fn new_layer_is_titled_and_empty() {
    let l: Layer<u8> = Layer::new(Some("base layer".to_string()));
    assert_eq!(l.title(), &Some("base layer".to_string()));
    assert!(l.get_queue().is_empty());
    let d: Layer<u8> = Layer::default();
    assert_eq!(d.title(), &None);
}

#[test]
fn push_keeps_what_is_queued_under_a_key() {
    let mut l: Layer<u8> = Layer::new(None);
    l.push(3, 30);
    l.push(3, 31);
    l.push(1, 10);
    assert_eq!(l.get_queue().get(&3), Some(&30));
    assert_eq!(l.get_queue().len(), 2);
}

#[test]
fn pop_first_takes_the_smallest_key() {
    let mut l: Layer<u8> = Layer::new(None);
    l.push(5, 50);
    l.push(-2, 20);
    l.push(9, 90);
    assert_eq!(l.pop_first(), Some((-2, 20)));
    assert_eq!(l.pop_first(), Some((5, 50)));
    assert_eq!(l.pop_first(), Some((9, 90)));
    assert_eq!(l.pop_first(), None);
}

#[test]
fn pop_undoes_push() {
    let mut l: Layer<u8> = Layer::new(None);
    l.push(1, 10);
    l.push(2, 20);
    assert_eq!(l.pop(2), Some(20));
    assert_eq!(l.pop(2), None);
    assert_eq!(l.get_queue().len(), 1);
    assert_eq!(l.get_queue().get(&1), Some(&10));
}

#[test]
fn get_mut_changes_in_place() {
    let mut l: Layer<u8> = Layer::new(None);
    l.push(4, 1);
    *l.get_mut(4).unwrap() = 7;
    assert_eq!(l.get_queue().get(&4), Some(&7));
    assert!(l.get_mut(5).is_none());
}

#[test]
fn clone_copies_title_and_queue() {
    let mut l: Layer<u8> = Layer::new(Some("t".to_string()));
    l.push(1, 2);
    let c = l.clone();
    assert_eq!(c.title(), &Some("t".to_string()));
    assert_eq!(c.get_queue().get(&1), Some(&2));
}

#[test]
fn render_joins_the_objects_in_key_order() {
    let mut l = Layer::new(None);
    l.push(2, mesh(&['c', 'd'], &[1, 0]));
    l.push(1, mesh(&['a', 'b', 'x'], &[0, 1, 2]));
    let (v, i) = l.render().unwrap();
    assert_eq!(v, vec!['a', 'b', 'x', 'c', 'd']);
    assert_eq!(i, vec![0, 1, 2, 4, 3]);
}

#[test]
fn render_of_an_empty_layer_is_empty() {
    let l: Layer<Mesh> = Layer::new(None);
    let (v, i) = l.render().unwrap();
    assert!(v.is_empty() && i.is_empty());
}

#[test]
fn render_stops_at_the_first_failure() {
    let mut l = Layer::new(None);
    l.push(1, mesh(&['a'], &[0]));
    l.push(2, Mesh { vertices: vec![], indices: vec![], fails: true });
    assert_eq!(l.render(), Err(RenderError::Triangulate(TriangulateError::NotEnoughPoints)));
}

#[test]
fn render_refuses_indices_past_u32() {
    let mut l = Layer::new(None);
    l.push(1, mesh(&['a'], &[0]));
    l.push(2, mesh(&['b'], &[u32::MAX]));
    assert_eq!(l.render(), Err(RenderError::IndexOverflow));
}

#[test]
fn box_clone_copies_the_object() {
    let m = mesh(&['a'], &[0]);
    let b = m.box_clone();
    assert_eq!(*b, m);
}
