//! Mobile world elements and their prototype registry.
//!
//! An object carries a position, size and velocity in world units.  Each tick
//! advances the position by the velocity.  A pair of objects collides when
//! their boxes, swept one tick forward along their velocities, overlap on
//! both axes while the pair is closing; the default response zeroes the
//! velocity component on the axis of least penetration.

use vstd::prelude::*;

verus! {

use crate::{POS_LIMIT, TILE_SIZE, VEL_LIMIT};
use crate::draw::{spec_batch_add, DrawBatch, DrawItem};
use crate::geom::Vec2i;
use crate::text::str_eq;

/// The four cardinal directions of movement or facing.
#[derive(Clone, Copy, Debug, PartialEq, Eq, Structural)]
pub enum Direction {
    Up,
    Down,
    Left,
    Right,
}

/// Mathematical content of an [`Object`].
pub ghost struct ObjectView {
    pub tag: Seq<char>,
    pub pos: Vec2i,
    pub size: Vec2i,
    pub velocity: Vec2i,
    pub texture: u64,
}

/// A mobile world element.
pub struct Object {
    /// Stable identifier of the object's kind.
    pub tag: String,
    /// Position in world units.
    pub pos: Vec2i,
    /// Size in world units.
    pub size: Vec2i,
    /// Velocity in world units per tick.
    pub velocity: Vec2i,
    /// Handle of the texture the object draws with.
    pub texture: u64,
}

impl View for Object {
    type V = ObjectView;

    open spec fn view(&self) -> ObjectView {
        ObjectView {
            tag: self.tag@,
            pos: self.pos,
            size: self.size,
            velocity: self.velocity,
            texture: self.texture,
        }
    }
}

/// Bounds every stored object obeys.
pub open spec fn object_view_wf(o: ObjectView) -> bool {
    o.pos.is_pos() && o.size.is_size() && o.velocity.is_vel()
}

/// True when the object's position leaves a full velocity bound of
/// headroom before the coordinate range ends, so that one tick is safe
/// whatever in-bounds velocity the object carries.
pub open spec fn object_pos_safe(o: ObjectView) -> bool {
    &&& -(POS_LIMIT - VEL_LIMIT) <= o.pos.x <= POS_LIMIT - VEL_LIMIT
    &&& -(POS_LIMIT - VEL_LIMIT) <= o.pos.y <= POS_LIMIT - VEL_LIMIT
}

/// A safely placed, well-formed object can always step.
pub proof fn lemma_pos_safe_can_step(o: ObjectView)
    requires
        object_view_wf(o),
        object_pos_safe(o),
    ensures
        can_step(o),
{
}

/// True when advancing `o` by its velocity keeps its position within
/// coordinate range, so that one tick cannot overflow.
pub open spec fn can_step(o: ObjectView) -> bool {
    &&& -POS_LIMIT <= o.pos.x + o.velocity.x <= POS_LIMIT
    &&& -POS_LIMIT <= o.pos.y + o.velocity.y <= POS_LIMIT
}

/// The position of `o` one tick forward.
pub open spec fn stepped_pos(o: ObjectView) -> Vec2i
    recommends
        can_step(o),
{
    Vec2i { x: (o.pos.x + o.velocity.x) as i64, y: (o.pos.y + o.velocity.y) as i64 }
}

/// The view of `o` one tick forward.
pub open spec fn stepped(o: ObjectView) -> ObjectView {
    ObjectView { pos: stepped_pos(o), ..o }
}

/// True when the boxes of `a` and `b`, each swept one tick forward along its
/// velocity, overlap strictly on both axes.
pub open spec fn spec_will_collide(a: ObjectView, b: ObjectView) -> bool {
    let ax = a.pos.x + a.velocity.x;
    let ay = a.pos.y + a.velocity.y;
    let bx = b.pos.x + b.velocity.x;
    let by = b.pos.y + b.velocity.y;
    &&& ax < bx + b.size.x
    &&& ax + a.size.x > bx
    &&& ay < by + b.size.y
    &&& ay + a.size.y > by
}

/// True when `a` and `b` are closing: the dot product of their relative
/// velocity with the separation from `a` to `b` is positive.
pub open spec fn spec_approaching(a: ObjectView, b: ObjectView) -> bool {
    (a.velocity.x - b.velocity.x) * (b.pos.x - a.pos.x) + (a.velocity.y - b.velocity.y) * (b.pos.y
        - a.pos.y) > 0
}

/// The default collision response of `s` against `o`: when the two boxes,
/// shrunk by a one-unit buffer, overlap on both axes, the velocity component
/// on the axis of least penetration is zeroed (both on a tie); otherwise `s`
/// is unchanged.
pub open spec fn spec_collision_response(s: ObjectView, o: ObjectView) -> ObjectView {
    let s_min_x = s.pos.x + 1;
    let s_max_x = s.pos.x + s.size.x - 1;
    let s_min_y = s.pos.y + 1;
    let s_max_y = s.pos.y + s.size.y - 1;
    let o_min_x = o.pos.x + 1;
    let o_max_x = o.pos.x + o.size.x - 1;
    let o_min_y = o.pos.y + 1;
    let o_max_y = o.pos.y + o.size.y - 1;
    if s_min_x < o_max_x && s_max_x > o_min_x && s_min_y < o_max_y && s_max_y > o_min_y {
        let x_overlap = if s_max_x - o_min_x <= o_max_x - s_min_x {
            s_max_x - o_min_x
        } else {
            o_max_x - s_min_x
        };
        let y_overlap = if s_max_y - o_min_y <= o_max_y - s_min_y {
            s_max_y - o_min_y
        } else {
            o_max_y - s_min_y
        };
        let v = if x_overlap < y_overlap {
            Vec2i { x: 0, y: s.velocity.y }
        } else if x_overlap > y_overlap {
            Vec2i { x: s.velocity.x, y: 0 }
        } else {
            Vec2i { x: 0, y: 0 }
        };
        ObjectView { velocity: v, ..s }
    } else {
        s
    }
}

impl Object {
    /// Well-formedness: coordinates within the range the core computes in.
    pub open spec fn wf(&self) -> bool {
        object_view_wf(self@)
    }

    /// Builds an object from its parts.
    pub fn new(tag: String, pos: Vec2i, size: Vec2i, velocity: Vec2i, texture: u64) -> (r: Object)
        ensures
            r@ == (ObjectView { tag: tag@, pos, size, velocity, texture }),
    {
        Object { tag, pos, size, velocity, texture }
    }

    /// The object's stable type tag.
    pub fn get_type_tag(&self) -> (r: &str)
        ensures
            r@ == self@.tag,
    {
        self.tag.as_str()
    }

    /// The object's position in world units.
    pub fn get_pos(&self) -> (r: Vec2i)
        ensures
            r == self@.pos,
    {
        self.pos
    }

    /// The object's size in world units.
    pub fn get_size(&self) -> (r: Vec2i)
        ensures
            r == self@.size,
    {
        self.size
    }

    /// The object's velocity in world units per tick.
    pub fn get_velocity(&self) -> (r: Vec2i)
        ensures
            r == self@.velocity,
    {
        self.velocity
    }

    /// Moves the object to `pos`.
    pub fn set_pos(&mut self, pos: Vec2i)
        ensures
            final(self)@ == (ObjectView { pos, ..old(self)@ }),
    {
        self.pos = pos;
    }

    /// Resizes the object to `size`.
    pub fn set_size(&mut self, size: Vec2i)
        ensures
            final(self)@ == (ObjectView { size, ..old(self)@ }),
    {
        self.size = size;
    }

    /// Sets the object's velocity.
    pub fn set_velocity(&mut self, velocity: Vec2i)
        ensures
            final(self)@ == (ObjectView { velocity, ..old(self)@ }),
    {
        self.velocity = velocity;
    }

    /// Advances the object by one tick: the position moves by the velocity.
    pub fn tick(&mut self)
        requires
            old(self).wf(),
            can_step(old(self)@),
        ensures
            final(self)@ == stepped(old(self)@),
            final(self).wf(),
    {
        self.pos = Vec2i { x: self.pos.x + self.velocity.x, y: self.pos.y + self.velocity.y };
    }

    /// True when the boxes of `self` and `other`, swept one tick forward,
    /// overlap strictly on both axes.
    pub fn will_collide(&self, other: &Object) -> (r: bool)
        requires
            self.wf(),
            other.wf(),
        ensures
            r == spec_will_collide(self@, other@),
    {
        let ax = self.pos.x + self.velocity.x;
        let ay = self.pos.y + self.velocity.y;
        let bx = other.pos.x + other.velocity.x;
        let by = other.pos.y + other.velocity.y;
        ax < bx + other.size.x && ax + self.size.x > bx && ay < by + other.size.y && ay + self.size.y
            > by
    }

    /// True when `self` and `other` are closing on one another.
    pub fn approaching(&self, other: &Object) -> (r: bool)
        requires
            self.wf(),
            other.wf(),
        ensures
            r == spec_approaching(self@, other@),
    {
        let rvx: i128 = (self.velocity.x as i128) - (other.velocity.x as i128);
        let rvy: i128 = (self.velocity.y as i128) - (other.velocity.y as i128);
        let dx: i128 = (other.pos.x as i128) - (self.pos.x as i128);
        let dy: i128 = (other.pos.y as i128) - (self.pos.y as i128);
        proof {
            assert(-0x4_0000_0000_0000_0000_0000_0000 <= rvx * dx
                <= 0x4_0000_0000_0000_0000_0000_0000) by (nonlinear_arith)
                requires
                    -0x1_0000_0000 <= rvx <= 0x1_0000_0000,
                    -0x4000_0000_0000_0000 <= dx <= 0x4000_0000_0000_0000,
            ;
            assert(-0x4_0000_0000_0000_0000_0000_0000 <= rvy * dy
                <= 0x4_0000_0000_0000_0000_0000_0000) by (nonlinear_arith)
                requires
                    -0x1_0000_0000 <= rvy <= 0x1_0000_0000,
                    -0x4000_0000_0000_0000 <= dy <= 0x4000_0000_0000_0000,
            ;
        }
        rvx * dx + rvy * dy > 0
    }

    /// Applies the default collision response against `other`, zeroing the
    /// velocity component on the axis of least penetration when the buffered
    /// boxes overlap.  Only `self`'s velocity changes; `other` is read.
    pub fn collision(&mut self, other: &Object)
        requires
            old(self).wf(),
            other.wf(),
        ensures
            final(self)@ == spec_collision_response(old(self)@, other@),
            final(self).wf(),
    {
        let s_min_x = self.pos.x + 1;
        let s_max_x = self.pos.x + self.size.x - 1;
        let s_min_y = self.pos.y + 1;
        let s_max_y = self.pos.y + self.size.y - 1;
        let o_min_x = other.pos.x + 1;
        let o_max_x = other.pos.x + other.size.x - 1;
        let o_min_y = other.pos.y + 1;
        let o_max_y = other.pos.y + other.size.y - 1;
        if s_min_x < o_max_x && s_max_x > o_min_x && s_min_y < o_max_y && s_max_y > o_min_y {
            let xo_a = s_max_x - o_min_x;
            let xo_b = o_max_x - s_min_x;
            let x_overlap = if xo_a <= xo_b {
                xo_a
            } else {
                xo_b
            };
            let yo_a = s_max_y - o_min_y;
            let yo_b = o_max_y - s_min_y;
            let y_overlap = if yo_a <= yo_b {
                yo_a
            } else {
                yo_b
            };
            if x_overlap < y_overlap {
                self.velocity = Vec2i { x: 0, y: self.velocity.y };
            } else if x_overlap > y_overlap {
                self.velocity = Vec2i { x: self.velocity.x, y: 0 };
            } else {
                self.velocity = Vec2i { x: 0, y: 0 };
            }
        }
    }

    /// Reacts to a right interaction from `other`.  The default content kinds
    /// carry no interaction state, so nothing changes.
    pub fn on_right_interact(&mut self, other: &mut Object)
        ensures
            final(self)@ == old(self)@,
            final(other)@ == old(other)@,
    {
    }

    /// Reacts to a left interaction from `other`; nothing changes.
    pub fn on_left_interact(&mut self, other: &mut Object)
        ensures
            final(self)@ == old(self)@,
            final(other)@ == old(other)@,
    {
    }

    /// Submits the object's texture at its position to the draw batch,
    /// stretched to the object's size.
    pub fn draw(&self, batch: &mut DrawBatch)
        requires
            old(batch).wf(),
        ensures
            final(batch).wf(),
            final(batch)@ == spec_batch_add(
                old(batch)@,
                self@.texture,
                DrawItem { pos: self@.pos, scale: TILE_SIZE, dest_size: Some(self@.size) },
            ),
    {
        batch.add(self.texture, self.pos, TILE_SIZE, Some(self.size));
    }

    /// An independent copy of the object.
    pub fn clone_box(&self) -> (r: Object)
        ensures
            r@ == self@,
    {
        Object {
            tag: self.tag.clone(),
            pos: self.pos,
            size: self.size,
            velocity: self.velocity,
            texture: self.texture,
        }
    }
}

/// Mathematical content of an [`ObjectData`] record.
pub ghost struct ObjectDataView {
    pub tag: Seq<char>,
    pub pos: Vec2i,
    pub size: Vec2i,
    pub velocity: Vec2i,
}

/// The persisted record of an object: its type tag, position, size and
/// velocity.  Any richer per-instance state lives only on the prototype and
/// is not carried by the record.
pub struct ObjectData {
    pub type_tag: String,
    pub pos: Vec2i,
    pub size: Vec2i,
    pub velocity: Vec2i,
}

impl View for ObjectData {
    type V = ObjectDataView;

    open spec fn view(&self) -> ObjectDataView {
        ObjectDataView { tag: self.type_tag@, pos: self.pos, size: self.size, velocity: self.velocity }
    }
}

/// Bounds a stored object record obeys.
pub open spec fn object_data_wf(r: ObjectDataView) -> bool {
    r.pos.is_pos() && r.size.is_size() && r.velocity.is_vel()
}

/// The record an object persists: its tag, position, size and velocity.
pub open spec fn object_record_of(o: ObjectView) -> ObjectDataView {
    ObjectDataView { tag: o.tag, pos: o.pos, size: o.size, velocity: o.velocity }
}

/// Objects that persist themselves as a byte record.
pub trait SerializableObject {
    /// When the value may be serialized.
    spec fn serial_wf(&self) -> bool;

    /// The bytes the value persists as.
    spec fn record_bytes(&self) -> Seq<u8>;

    /// Serializes the value into its record.
    fn serialize(&self) -> (r: Vec<u8>)
        requires
            self.serial_wf(),
        ensures
            r@ == self.record_bytes(),
    ;
}

/// True when some prototype in `s` carries `tag`.
pub open spec fn has_object_tag(s: Seq<ObjectView>, tag: Seq<char>) -> bool {
    exists|i: int| 0 <= i < s.len() && s[i].tag == tag
}

/// Stores one prototype object per type tag and creates instances by cloning.
pub struct ObjectRegistry {
    prototypes: Vec<Object>,
}

impl View for ObjectRegistry {
    type V = Seq<ObjectView>;

    closed spec fn view(&self) -> Seq<ObjectView> {
        Seq::new(self.prototypes@.len(), |i: int| self.prototypes@[i]@)
    }
}

impl ObjectRegistry {
    /// Well-formedness: tags are unique and every prototype is in bounds.
    pub open spec fn wf(&self) -> bool {
        &&& forall|i: int, j: int| 0 <= i < j < self@.len() ==> self@[i].tag != self@[j].tag
        &&& forall|i: int| 0 <= i < self@.len() ==> object_view_wf(#[trigger] self@[i])
    }

    /// An empty registry.
    pub fn new() -> (r: ObjectRegistry)
        ensures
            r@ =~= Seq::<ObjectView>::empty(),
            r.wf(),
    {
        ObjectRegistry { prototypes: Vec::new() }
    }

    /// Registers `obj` as the prototype for its own tag; a later registration
    /// for the same tag replaces the earlier one.
    pub fn register(&mut self, obj: Object)
        requires
            old(self).wf(),
            obj.wf(),
        ensures
            final(self).wf(),
            has_object_tag(final(self)@, obj@.tag),
            (if has_object_tag(old(self)@, obj@.tag) {
                exists|i: int|
                    0 <= i < old(self)@.len() && old(self)@[i].tag == obj@.tag && final(self)@
                        =~= old(self)@.update(i, obj@)
            } else {
                final(self)@ =~= old(self)@.push(obj@)
            }),
    {
        let n = self.prototypes.len();
        let mut i: usize = 0;
        while i < n
            invariant
                n == self@.len(),
                i <= n,
                self@ == old(self)@,
                self.wf(),
                obj.wf(),
                forall|k: int| 0 <= k < i ==> self@[k].tag != obj@.tag,
            decreases n - i,
        {
            if str_eq(self.prototypes[i].tag.as_str(), obj.tag.as_str()) {
                proof {
                    assert(self@[i as int] == self.prototypes@[i as int]@);
                }
                let ghost s_old = self@;
                let ghost ti = i as int;
                let _ = self.prototypes.remove(i);
                self.prototypes.insert(i, obj);
                proof {
                    assert(self@ =~= s_old.update(ti, obj@));
                    assert(self@[ti].tag == obj@.tag);
                    assert forall|a: int, b: int|
                        0 <= a < b < self@.len() implies self@[a].tag != self@[b].tag by {
                        if a != ti && b != ti {
                            assert(s_old[a].tag != s_old[b].tag);
                        } else if a == ti {
                            assert(s_old[ti].tag == obj@.tag);
                            assert(s_old[ti].tag != s_old[b].tag);
                        } else {
                            assert(s_old[ti].tag == obj@.tag);
                            assert(s_old[a].tag != s_old[ti].tag);
                        }
                    }
                    assert forall|k: int| 0 <= k < self@.len() implies object_view_wf(
                        #[trigger] self@[k],
                    ) by {
                        if k != ti {
                            assert(object_view_wf(s_old[k]));
                        }
                    }
                }
                return ;
            }
            i = i + 1;
        }
        self.prototypes.push(obj);
        proof {
            assert(self@ =~= old(self)@.push(obj@));
            let n_new = self@.len();
            assert(self@[n_new - 1].tag == obj@.tag);
            assert forall|a: int, b: int|
                0 <= a < b < self@.len() implies self@[a].tag != self@[b].tag by {
                if b < n_new - 1 {
                    assert(old(self)@[a].tag != old(self)@[b].tag);
                } else {
                    assert(self@[a] == old(self)@[a]);
                    assert(old(self)@[a].tag != obj@.tag);
                }
            }
            assert forall|k: int| 0 <= k < self@.len() implies object_view_wf(
                #[trigger] self@[k],
            ) by {
                if k < n_new - 1 {
                    assert(object_view_wf(old(self)@[k]));
                }
            }
        }
    }

    /// Clones the prototype registered under `type_tag`; `None` when no
    /// prototype carries that tag.
    pub fn create_object_by_id(&self, type_tag: &str) -> (r: Option<Object>)
        ensures
            match r {
                Some(o) => exists|i: int|
                    0 <= i < self@.len() && self@[i].tag == type_tag@ && o@ == self@[i],
                None => !has_object_tag(self@, type_tag@),
            },
    {
        let n = self.prototypes.len();
        let mut i: usize = 0;
        while i < n
            invariant
                n == self@.len(),
                i <= n,
                forall|k: int| 0 <= k < i ==> self@[k].tag != type_tag@,
            decreases n - i,
        {
            if str_eq(self.prototypes[i].tag.as_str(), type_tag) {
                proof {
                    assert(self@[i as int] == self.prototypes@[i as int]@);
                }
                return Some(self.prototypes[i].clone_box());
            }
            i = i + 1;
        }
        None
    }
}

} // verus!
