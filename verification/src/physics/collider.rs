pub mod bvh;

use vstd::prelude::*;
use vstd::std_specs::cmp::PartialEqSpecImpl;

verus! {

/// Contacts are remembered from one frame to the next while younger than this many frames.
pub const MAX_CONTACT_AGE: u8 = 4;

/// Which way round two overlapping colliders are examined for a contact, given the
/// rigidbodies they belong to, each named by an id: `None` when the pair is skipped (neither
/// belongs to a rigidbody, or both belong to the same one), `Some(false)` to keep the order,
/// and `Some(true)` to swap the two so that a collider with a rigidbody comes first.
pub fn contact_pair_order(body_1: Option<u64>, body_2: Option<u64>) -> (swap: Option<bool>)
    ensures
        swap == match (body_1, body_2) {
            (Some(a), Some(b)) => if a == b {
                None
            } else {
                Some(false)
            },
            (Some(_), None) => Some(false),
            (None, Some(_)) => Some(true),
            (None, None) => None::<bool>,
        },
{
    match body_1 {
        Some(a) => match body_2 {
            Some(b) => if a == b {
                None
            } else {
                Some(false)
            },
            None => Some(false),
        },
        None => if body_2.is_some() {
            Some(true)
        } else {
            None
        },
    }
}

/// Part of a cube of radius 1 taking part in a contact.
///
/// Vertex: bits 0, 1 and 2 correspond to the x, y and z components of the vertex where
/// 0 => -1.0 and 1 => 1.0
///
/// Face: value corresponds to normal axis of face, 0 => x-axis, 1 => y-axis, 2 => z-axis
///
/// Edge: bits 0, 1 and 2 give a vertex at one end of the edge, the bits from 3 up give the
/// axis along which the edge runs.
#[derive(PartialEq, Eq, Debug, Clone, Copy, Structural)]
pub enum CuboidElement {
    Vertex(u8),
    Face(u8),
    Edge(u8),
}

/// Code of the edge leaving `vertex` along `axis`: the axis above the three vertex bits, and
/// the vertex's bit for that axis set.
pub open spec fn edge_code(vertex: u8, axis: u8) -> u8 {
    ((axis << 3u8) | vertex | (1u8 << axis)) as u8
}

/// Index of the cube vertex nearest to a point, from the signs of its coordinates.
pub open spec fn vertex_index(x_positive: bool, y_positive: bool, z_positive: bool) -> u8 {
    ((if x_positive { 1u8 } else { 0u8 }) + (if y_positive { 2u8 } else { 0u8 }) + (if z_positive {
        4u8
    } else {
        0u8
    })) as u8
}

impl CuboidElement {
    /// The edge leaving `vertex` along `axis`.
    pub fn from_vertex_axis(vertex: u8, axis: u8) -> (r: Self)
        requires
            axis < 8,
        ensures
            r == CuboidElement::Edge(edge_code(vertex, axis)),
    {
        let axis_mask: u8 = 1u8 << axis;
        let axis_flags: u8 = axis << 3u8;
        CuboidElement::Edge(axis_flags | vertex | axis_mask)
    }

    /// The vertex (its index among the cube's vertices) and the axis of an edge code.
    pub fn into_vertex_axis(edge: u8) -> (r: (u8, usize))
        ensures
            r.0 == edge & 7u8,
            r.0 < 8,
            r.1 == (edge >> 3u8) as usize,
    {
        let vertex: u8 = edge & 0b111u8;
        let axis: u8 = edge >> 3u8;
        assert(edge & 7u8 < 8) by (bit_vector);
        (vertex, axis as usize)
    }

    /// Index of the cube vertex nearest to a point, given which of its coordinates are
    /// positive.
    pub fn closest_vertex(x_positive: bool, y_positive: bool, z_positive: bool) -> (r: u8)
        ensures
            r == vertex_index(x_positive, y_positive, z_positive),
            r < 8,
    {
        let mut result: u8 = 0;
        if x_positive {
            result += 0b001;
        }
        if y_positive {
            result += 0b010;
        }
        if z_positive {
            result += 0b100;
        }
        result
    }

    /// The nearest vertex's index holds one bit per axis: bit 0 is set exactly when x is
    /// positive, bit 1 exactly when y is, bit 2 exactly when z is, and no higher bit.
    pub proof fn law_vertex_bits(x_positive: bool, y_positive: bool, z_positive: bool)
        ensures
            vertex_index(x_positive, y_positive, z_positive) & 1u8 == (if x_positive { 1u8 } else { 0u8 }),
            (vertex_index(x_positive, y_positive, z_positive) >> 1u8) & 1u8 == (if y_positive {
                1u8
            } else {
                0u8
            }),
            (vertex_index(x_positive, y_positive, z_positive) >> 2u8) & 1u8 == (if z_positive {
                1u8
            } else {
                0u8
            }),
            vertex_index(x_positive, y_positive, z_positive) < 8,
    {
        let v = vertex_index(x_positive, y_positive, z_positive);
        let bx: u8 = if x_positive { 1u8 } else { 0u8 };
        let by: u8 = if y_positive { 1u8 } else { 0u8 };
        let bz: u8 = if z_positive { 1u8 } else { 0u8 };
        assert(v == bx + 2 * by + 4 * bz);
        assert(v & 1u8 == bx && (v >> 1u8) & 1u8 == by && (v >> 2u8) & 1u8 == bz && v < 8) by (bit_vector)
            requires
                bx <= 1 && by <= 1 && bz <= 1,
                v == bx + 2 * by + 4 * bz,
        ;
    }

    /// Decoding an edge code gives back its axis, and the vertex it was made from with the
    /// bit of that axis set.
    pub proof fn law_edge_round_trip(vertex: u8, axis: u8)
        requires
            vertex < 8,
            axis < 3,
        ensures
            edge_code(vertex, axis) & 7u8 == vertex | (1u8 << axis),
            edge_code(vertex, axis) >> 3u8 == axis,
    {
        assert(((((axis << 3u8) | vertex | (1u8 << axis)) as u8) & 7u8 == vertex | (1u8 << axis))
            && ((((axis << 3u8) | vertex | (1u8 << axis)) as u8) >> 3u8 == axis)) by (bit_vector)
            requires
                vertex < 8,
                axis < 3,
        ;
    }
}

/// One side of a contact: which collider (by its key) and which part of its cube.
#[derive(PartialEq, Eq, Debug, Clone, Copy, Structural)]
pub struct ContactIdentifier {
    pub collider: u64,
    element: CuboidElement,
}

/// The two sides of a contact. Two pairs are equal when they name the same two sides, in
/// either order.
#[derive(Debug, Clone, Copy)]
pub struct ContactIdPair(pub ContactIdentifier, pub ContactIdentifier);

impl ContactIdentifier {
    pub fn new(collider: u64, element: CuboidElement) -> (r: Self)
        ensures
            r.key() == collider,
            r.part() == element,
    {
        ContactIdentifier { collider, element }
    }

    pub closed spec fn key(&self) -> u64 {
        self.collider
    }

    pub closed spec fn part(&self) -> CuboidElement {
        self.element
    }

    /// The part of the collider's cube.
    pub fn element(&self) -> (r: CuboidElement)
        ensures
            r == self.part(),
    {
        self.element
    }
}

impl ContactIdPair {
    /// Both pairs name the same two sides, in the same or the opposite order.
    pub open spec fn same_pair(&self, other: &Self) -> bool {
        (self.0 == other.0 && self.1 == other.1) || (self.0 == other.1 && self.1 == other.0)
    }

    /// Equality of contact pairs is an equivalence that ignores the order of the two sides.
    pub proof fn law_same_pair_equivalence(a: ContactIdPair, b: ContactIdPair, c: ContactIdPair)
        ensures
            a.same_pair(&a),
            a.same_pair(&b) == b.same_pair(&a),
            a.same_pair(&b) && b.same_pair(&c) ==> a.same_pair(&c),
            a.same_pair(&ContactIdPair(a.1, a.0)),
    {
    }
}

impl PartialEq for ContactIdPair {
    fn eq(&self, other: &Self) -> (r: bool) {
        (self.0 == other.0 && self.1 == other.1) || (self.0 == other.1 && self.1 == other.0)
    }
}

impl PartialEqSpecImpl for ContactIdPair {
    open spec fn obeys_eq_spec() -> bool {
        true
    }

    open spec fn eq_spec(&self, other: &ContactIdPair) -> bool {
        self.same_pair(other)
    }
}

/// Searches the remembered contacts for one equal to `id` and removes the first such entry;
/// nothing changes when there is none.
pub fn remove_cached_contact(past_contacts: &mut Vec<(u8, ContactIdPair)>, id: &ContactIdPair)
    ensures
        (forall|j: int|
            0 <= j < old(past_contacts)@.len() ==> !id.same_pair(&(#[trigger] old(past_contacts)@[j]).1))
            ==> final(past_contacts)@ == old(past_contacts)@,
        (exists|j: int|
            0 <= j < old(past_contacts)@.len() && id.same_pair(&(#[trigger] old(past_contacts)@[j]).1))
            ==> exists|k: int|
            {
                &&& 0 <= k < old(past_contacts)@.len()
                &&& id.same_pair(&(#[trigger] old(past_contacts)@[k]).1)
                &&& forall|j: int| 0 <= j < k ==> !id.same_pair(&(#[trigger] old(past_contacts)@[j]).1)
                &&& final(past_contacts)@ == old(past_contacts)@.remove(k)
            },
{
    let mut i: usize = 0;
    while i < past_contacts.len()
        invariant
            i <= past_contacts@.len(),
            past_contacts@ == old(past_contacts)@,
            forall|j: int| 0 <= j < i ==> !id.same_pair(&(#[trigger] past_contacts@[j]).1),
        decreases past_contacts@.len() - i,
    {
        if *id == past_contacts[i].1 {
            let ghost s0 = past_contacts@;
            past_contacts.remove(i);
            assert(id.same_pair(&s0[i as int].1));
            return;
        }
        i = i + 1;
    }
}

/// Remembers a contact for the next frame, one frame older, unless it has reached
/// `MAX_CONTACT_AGE`; tells whether it was remembered.
pub fn cache_past_contact(past_contacts: &mut Vec<(u8, ContactIdPair)>, age: u8, id: ContactIdPair) -> (cached: bool)
    requires
        age < u8::MAX,
    ensures
        cached == (age + 1 < MAX_CONTACT_AGE),
        cached ==> final(past_contacts)@ == old(past_contacts)@.push(((age + 1) as u8, id)),
        !cached ==> final(past_contacts)@ == old(past_contacts)@,
{
    if age + 1 < MAX_CONTACT_AGE {
        past_contacts.push((age + 1, id));
        true
    } else {
        false
    }
}

/// A remembered contact is found again by a pair naming the same two sides, in either order.
pub proof fn law_cached_contact_found(
    before: Seq<(u8, ContactIdPair)>,
    after: Seq<(u8, ContactIdPair)>,
    age: u8,
    id: ContactIdPair,
    query: ContactIdPair,
)
    requires
        after == before.push((age, id)),
        query.same_pair(&id),
    ensures
        exists|j: int| 0 <= j < after.len() && query.same_pair(&(#[trigger] after[j]).1),
{
    assert(after[before.len() as int].1 == id);
}

} // verus!
