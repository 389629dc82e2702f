use vulkano_template::physics::collider::{
    cache_past_contact, contact_pair_order, remove_cached_contact, ContactIdPair, ContactIdentifier, CuboidElement,
    MAX_CONTACT_AGE,
};

#[test]
fn bit_manips() {
    // the point (0.12, 1.2, -2.0): x and y positive, z negative
    let vertex = CuboidElement::closest_vertex(0.12f32 > 0., 1.2f32 > 0., -2.0f32 > 0.);
    let edge = CuboidElement::from_vertex_axis(1, 1);
    let (v, a) = CuboidElement::into_vertex_axis(0b01_010);

    println!("c_v: {:?}", vertex);
    println!("e: {:?}", edge);
    println!("v: {:?}, a: {:?}", v, a);
    assert_eq!(vertex, 0b011);
    assert_eq!(edge, CuboidElement::Edge(0b01_011));
    assert_eq!((v, a), (0b010, 1));
}

#[test]
fn edge_round_trip() {
    for vertex in 0u8..8 {
        for axis in 0u8..3 {
            match CuboidElement::from_vertex_axis(vertex, axis) {
                CuboidElement::Edge(code) => {
                    let (v, a) = CuboidElement::into_vertex_axis(code);
                    assert_eq!(a, axis as usize);
                    assert_eq!(v, vertex | (1 << axis));
                }
                _ => panic!("not an edge"),
            }
        }
    }
}

#[test]
fn closest_vertex_bits() {
    assert_eq!(CuboidElement::closest_vertex(false, false, false), 0);
    assert_eq!(CuboidElement::closest_vertex(true, false, false), 1);
    assert_eq!(CuboidElement::closest_vertex(false, true, false), 2);
    assert_eq!(CuboidElement::closest_vertex(false, false, true), 4);
    assert_eq!(CuboidElement::closest_vertex(true, true, true), 7);
}

fn pair(a: u64, ea: CuboidElement, b: u64, eb: CuboidElement) -> ContactIdPair {
    ContactIdPair(ContactIdentifier::new(a, ea), ContactIdentifier::new(b, eb))
}

#[test]
fn contact_pairs_ignore_order() {
    let p = pair(1, CuboidElement::Vertex(3), 2, CuboidElement::Face(1));
    let q = pair(2, CuboidElement::Face(1), 1, CuboidElement::Vertex(3));
    let r = pair(1, CuboidElement::Vertex(3), 2, CuboidElement::Face(2));
    assert!(p == q);
    assert!(q == p);
    assert!(p != r);
    assert_eq!(p.0.element(), CuboidElement::Vertex(3));
}

#[test]
fn cached_contact_found_and_removed() {
    let p = pair(1, CuboidElement::Edge(9), 2, CuboidElement::Edge(17));
    let q = pair(3, CuboidElement::Vertex(0), 2, CuboidElement::Face(0));
    let mut past: Vec<(u8, ContactIdPair)> = Vec::new();
    assert!(cache_past_contact(&mut past, 0, q));
    assert!(cache_past_contact(&mut past, 1, p));
    assert_eq!(past.len(), 2);
    assert_eq!(past[1].0, 2);
    // searched under the swapped order
    let swapped = ContactIdPair(p.1, p.0);
    remove_cached_contact(&mut past, &swapped);
    assert_eq!(past.len(), 1);
    assert!(past[0].1 == q);
    // not there: nothing changes
    remove_cached_contact(&mut past, &p);
    assert_eq!(past.len(), 1);
}

#[test]
fn old_contacts_are_forgotten() {
    let p = pair(1, CuboidElement::Vertex(1), 2, CuboidElement::Face(2));
    let mut past: Vec<(u8, ContactIdPair)> = Vec::new();
    assert!(cache_past_contact(&mut past, MAX_CONTACT_AGE - 2, p));
    assert!(!cache_past_contact(&mut past, MAX_CONTACT_AGE - 1, p));
    assert_eq!(past.len(), 1);
    assert_eq!(past[0].0, MAX_CONTACT_AGE - 1);
}

#[test]
fn contact_pairs_put_the_rigidbody_first() {
    assert_eq!(contact_pair_order(Some(1), Some(2)), Some(false));
    assert_eq!(contact_pair_order(Some(3), Some(3)), None);
    assert_eq!(contact_pair_order(Some(3), None), Some(false));
    assert_eq!(contact_pair_order(None, Some(4)), Some(true));
    assert_eq!(contact_pair_order(None, None), None);
}
