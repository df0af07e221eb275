//! Static terrain elements and their prototype registry.
//!
//! A tile is an immobile, grid-aligned world element carrying a stable string
//! type tag, a world-space position and size, and the handle of the texture
//! it draws with.  A registry owns one prototype per tag and creates new
//! instances by cloning the prototype.

use vstd::prelude::*;

verus! {

use crate::TILE_SIZE;
use crate::draw::{spec_batch_add, DrawBatch, DrawItem};
use crate::geom::Vec2i;
use crate::text::str_eq;

/// Mathematical content of a [`Tile`].
pub ghost struct TileView {
    pub tag: Seq<char>,
    pub pos: Vec2i,
    pub size: Vec2i,
    pub texture: u64,
}

/// A static terrain element.
pub struct Tile {
    /// Stable identifier of the tile's kind.
    pub tag: String,
    /// Position in world units.
    pub pos: Vec2i,
    /// Size in world units.
    pub size: Vec2i,
    /// Handle of the texture the tile draws with; an application-chosen id.
    pub texture: u64,
}

impl View for Tile {
    type V = TileView;

    open spec fn view(&self) -> TileView {
        TileView { tag: self.tag@, pos: self.pos, size: self.size, texture: self.texture }
    }
}

/// Bounds every stored tile obeys: position and size within coordinate range.
pub open spec fn tile_view_wf(t: TileView) -> bool {
    t.pos.is_pos() && t.size.is_size()
}

impl Tile {
    /// Well-formedness: coordinates within the range the core computes in.
    pub open spec fn wf(&self) -> bool {
        tile_view_wf(self@)
    }

    /// Builds a tile from its parts.
    pub fn new(tag: String, pos: Vec2i, size: Vec2i, texture: u64) -> (r: Tile)
        ensures
            r@ == (TileView { tag: tag@, pos, size, texture }),
    {
        Tile { tag, pos, size, texture }
    }

    /// The tile's stable type tag.
    pub fn get_type_tag(&self) -> (r: &str)
        ensures
            r@ == self@.tag,
    {
        self.tag.as_str()
    }

    /// The tile's position in world units.
    pub fn get_pos(&self) -> (r: Vec2i)
        ensures
            r == self@.pos,
    {
        self.pos
    }

    /// The tile's size in world units.
    pub fn get_size(&self) -> (r: Vec2i)
        ensures
            r == self@.size,
    {
        self.size
    }

    /// Moves the tile to `pos`.
    pub fn set_pos(&mut self, pos: Vec2i)
        ensures
            final(self)@ == (TileView { pos, ..old(self)@ }),
    {
        self.pos = pos;
    }

    /// Resizes the tile to `size`.
    pub fn set_size(&mut self, size: Vec2i)
        ensures
            final(self)@ == (TileView { size, ..old(self)@ }),
    {
        self.size = size;
    }

    /// Advances the tile by one frame.  A tile is immobile and carries no
    /// per-frame state, so a tick changes nothing.
    pub fn tick(&mut self)
        ensures
            final(self)@ == old(self)@,
    {
    }

    /// Reacts to a right interaction from the object `other`.  The default
    /// content kinds carry no interaction state, so nothing changes.
    pub fn on_right_interact(&mut self, other: &mut crate::object::Object)
        ensures
            final(self)@ == old(self)@,
            final(other)@ == old(other)@,
    {
    }

    /// Reacts to a left interaction from the object `other`; nothing
    /// changes.
    pub fn on_left_interact(&mut self, other: &mut crate::object::Object)
        ensures
            final(self)@ == old(self)@,
            final(other)@ == old(other)@,
    {
    }

    /// Submits the tile's texture at `pos` to the draw batch.
    pub fn draw(&self, batch: &mut DrawBatch, pos: Vec2i)
        requires
            old(batch).wf(),
        ensures
            final(batch).wf(),
            final(batch)@ == spec_batch_add(
                old(batch)@,
                self@.texture,
                DrawItem { pos, scale: TILE_SIZE, dest_size: None },
            ),
    {
        batch.add(self.texture, pos, TILE_SIZE, None);
    }

    /// An independent copy of the tile.
    pub fn clone_box(&self) -> (r: Tile)
        ensures
            r@ == self@,
    {
        Tile { tag: self.tag.clone(), pos: self.pos, size: self.size, texture: self.texture }
    }
}

/// Mathematical content of a [`TileData`] record.
pub ghost struct TileDataView {
    pub tag: Seq<char>,
    pub pos: Vec2i,
    pub size: Vec2i,
}

/// The persisted record of a tile: its type tag, position and size.  Any
/// richer per-instance state lives only on the prototype and is not carried
/// by the record.
pub struct TileData {
    pub type_tag: String,
    pub pos: Vec2i,
    pub size: Vec2i,
}

impl View for TileData {
    type V = TileDataView;

    open spec fn view(&self) -> TileDataView {
        TileDataView { tag: self.type_tag@, pos: self.pos, size: self.size }
    }
}

/// Bounds a stored tile record obeys.
pub open spec fn tile_data_wf(r: TileDataView) -> bool {
    r.pos.is_pos() && r.size.is_size()
}

/// The record a tile persists: its tag, position and size.
pub open spec fn tile_record_of(t: TileView) -> TileDataView {
    TileDataView { tag: t.tag, pos: t.pos, size: t.size }
}

/// Tiles that persist themselves as a byte record.
pub trait SerializableTile {
    /// When the value may be serialized.
    spec fn serial_wf(&self) -> bool;

    /// The bytes the value persists as.
    spec fn record_bytes(&self) -> Seq<u8>;

    /// Serializes the value into its record.
    fn serialize(&self) -> (r: Vec<u8>)
        requires
            self.serial_wf(),
        ensures
            r@ == self.record_bytes(),
    ;
}

/// True when some prototype in `s` carries `tag`.
pub open spec fn has_proto_tag(s: Seq<TileView>, tag: Seq<char>) -> bool {
    exists|i: int| 0 <= i < s.len() && s[i].tag == tag
}

/// Stores one prototype tile per type tag and creates instances by cloning.
pub struct TileRegistry {
    prototypes: Vec<Tile>,
}

impl View for TileRegistry {
    type V = Seq<TileView>;

    closed spec fn view(&self) -> Seq<TileView> {
        Seq::new(self.prototypes@.len(), |i: int| self.prototypes@[i]@)
    }
}

impl TileRegistry {
    /// Well-formedness: tags are unique and every prototype is in bounds.
    pub open spec fn wf(&self) -> bool {
        &&& forall|i: int, j: int|
            0 <= i < j < self@.len() ==> self@[i].tag != self@[j].tag
        &&& forall|i: int| 0 <= i < self@.len() ==> tile_view_wf(#[trigger] self@[i])
    }

    /// An empty registry.
    pub fn new() -> (r: TileRegistry)
        ensures
            r@ =~= Seq::<TileView>::empty(),
            r.wf(),
    {
        TileRegistry { prototypes: Vec::new() }
    }

    /// Registers `tile` as the prototype for its own tag; a later
    /// registration for the same tag replaces the earlier one.
    pub fn register(&mut self, tile: Tile)
        requires
            old(self).wf(),
            tile.wf(),
        ensures
            final(self).wf(),
            has_proto_tag(final(self)@, tile@.tag),
            (if has_proto_tag(old(self)@, tile@.tag) {
                exists|i: int|
                    0 <= i < old(self)@.len() && old(self)@[i].tag == tile@.tag && final(self)@
                        =~= old(self)@.update(i, tile@)
            } else {
                final(self)@ =~= old(self)@.push(tile@)
            }),
    {
        let n = self.prototypes.len();
        let mut i: usize = 0;
        while i < n
            invariant
                n == self@.len(),
                i <= n,
                self@ == old(self)@,
                self.wf(),
                tile.wf(),
                forall|k: int| 0 <= k < i ==> self@[k].tag != tile@.tag,
            decreases n - i,
        {
            if str_eq(self.prototypes[i].tag.as_str(), tile.tag.as_str()) {
                proof {
                    assert(self@[i as int] == self.prototypes@[i as int]@);
                }
                let ghost s_old = self@;
                let ghost ti = i as int;
                let _ = self.prototypes.remove(i);
                self.prototypes.insert(i, tile);
                proof {
                    assert(self@ =~= s_old.update(ti, tile@));
                    assert(self@[ti].tag == tile@.tag);
                    assert forall|a: int, b: int|
                        0 <= a < b < self@.len() implies self@[a].tag != self@[b].tag by {
                        if a != ti && b != ti {
                            assert(s_old[a].tag != s_old[b].tag);
                        } else if a == ti {
                            assert(s_old[ti].tag == tile@.tag);
                            assert(s_old[ti].tag != s_old[b].tag);
                        } else {
                            assert(s_old[ti].tag == tile@.tag);
                            assert(s_old[a].tag != s_old[ti].tag);
                        }
                    }
                    assert forall|k: int| 0 <= k < self@.len() implies tile_view_wf(
                        #[trigger] self@[k],
                    ) by {
                        if k != ti {
                            assert(tile_view_wf(s_old[k]));
                        }
                    }
                }
                return ;
            }
            i = i + 1;
        }
        self.prototypes.push(tile);
        proof {
            assert(self@ =~= old(self)@.push(tile@));
            let n_new = self@.len();
            assert(self@[n_new - 1].tag == tile@.tag);
            assert forall|a: int, b: int|
                0 <= a < b < self@.len() implies self@[a].tag != self@[b].tag by {
                if b < n_new - 1 {
                    assert(old(self)@[a].tag != old(self)@[b].tag);
                } else {
                    assert(self@[a] == old(self)@[a]);
                    assert(old(self)@[a].tag != tile@.tag);
                }
            }
            assert forall|k: int| 0 <= k < self@.len() implies tile_view_wf(
                #[trigger] self@[k],
            ) by {
                if k < n_new - 1 {
                    assert(tile_view_wf(old(self)@[k]));
                }
            }
        }
    }

    /// Clones the prototype registered under `type_tag`; `None` when no
    /// prototype carries that tag.
    pub fn create_tile_by_id(&self, type_tag: &str) -> (r: Option<Tile>)
        ensures
            match r {
                Some(t) => exists|i: int|
                    0 <= i < self@.len() && self@[i].tag == type_tag@ && t@ == self@[i],
                None => !has_proto_tag(self@, type_tag@),
            },
    {
        let n = self.prototypes.len();
        let mut i: usize = 0;
        while i < n
            invariant
                n == self@.len(),
                i <= n,
                forall|k: int| 0 <= k < i ==> self@[k].tag != type_tag@,
            decreases n - i,
        {
            if str_eq(self.prototypes[i].tag.as_str(), type_tag) {
                proof {
                    assert(self@[i as int] == self.prototypes@[i as int]@);
                }
                return Some(self.prototypes[i].clone_box());
            }
            i = i + 1;
        }
        None
    }
}

} // verus!
