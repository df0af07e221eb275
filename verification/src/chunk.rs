//! Fixed-size square regions of the world.
//!
//! A chunk owns a list of tiles and a list of objects, a bounding box
//! derived once from its chunk coordinate, and two transient index lists —
//! the tiles visible in the viewport and the objects active near it —
//! recomputed every frame and never persisted.

use vstd::prelude::*;

verus! {

use vstd::pervasive::VecAdditionalExecFns;

use crate::{CHUNK_COORD_LIMIT, CHUNK_PIXELS, CHUNK_SIZE, OBJECT_ACTIVATION_MARGIN, TILE_SIZE,
    WorldError};
use crate::codec::{
    enc_blob_into,
    enc_i64_into,
    enc_u64_into,
    lemma_blob_list_canonical,
    lemma_blob_list_snoc,
    parse_blob_list,
    spec_deser_object,
    spec_deser_tile,
    spec_enc_blob_list,
    spec_enc_i64,
    spec_enc_object_rec,
    spec_enc_tile_rec,
    spec_enc_u64,
    spec_parse_blob_list,
    dec_i64_at,
    dec_u64_at,
    key_i64,
    CHUNK_KIND,
};
use crate::draw::DrawBatch;
use crate::geom::{rects_intersect, Vec2i};
use crate::object::{
    can_step,
    object_record_of,
    ObjectRegistry,
    object_view_wf,
    stepped,
    Object,
    ObjectView,
    SerializableObject,
};
use crate::tile::{tile_record_of, tile_view_wf, SerializableTile, Tile, TileRegistry, TileView};

/// Mathematical content of a [`Chunk`].
#[verifier::ext_equal]
pub ghost struct ChunkView {
    pub tiles: Seq<TileView>,
    pub objects: Seq<ObjectView>,
    pub pos: Vec2i,
    pub bounds_min: Vec2i,
    pub bounds_max: Vec2i,
    pub visible_tiles: Seq<usize>,
    pub active_objects: Seq<usize>,
}

/// A fixed-size square region of the world.
pub struct Chunk {
    /// The tiles of the chunk, row-major within the chunk grid.
    pub tiles: Vec<Tile>,
    /// The objects currently residing in the chunk.
    pub objects: Vec<Object>,
    /// The chunk coordinate (world position divided by the chunk edge).
    pub pos: Vec2i,
    /// World-space bounding box, derived from `pos` at construction.
    pub bounds: (Vec2i, Vec2i),
    /// Indices of the tiles visible this frame; transient.
    pub visible_tiles: Vec<usize>,
    /// Indices of the objects active this frame; transient.
    pub active_objects: Vec<usize>,
}

impl View for Chunk {
    type V = ChunkView;

    open spec fn view(&self) -> ChunkView {
        ChunkView {
            tiles: Seq::new(self.tiles@.len(), |i: int| self.tiles@[i]@),
            objects: Seq::new(self.objects@.len(), |i: int| self.objects@[i]@),
            pos: self.pos,
            bounds_min: self.bounds.0,
            bounds_max: self.bounds.1,
            visible_tiles: self.visible_tiles@,
            active_objects: self.active_objects@,
        }
    }
}

/// Bounds and derived-field facts every chunk obeys.
pub open spec fn chunk_view_wf(c: ChunkView) -> bool {
    &&& -CHUNK_COORD_LIMIT <= c.pos.x <= CHUNK_COORD_LIMIT
    &&& -CHUNK_COORD_LIMIT <= c.pos.y <= CHUNK_COORD_LIMIT
    &&& c.bounds_min.x == c.pos.x * CHUNK_PIXELS
    &&& c.bounds_min.y == c.pos.y * CHUNK_PIXELS
    &&& c.bounds_max.x == c.bounds_min.x + CHUNK_PIXELS
    &&& c.bounds_max.y == c.bounds_min.y + CHUNK_PIXELS
    &&& forall|i: int| 0 <= i < c.tiles.len() ==> tile_view_wf(#[trigger] c.tiles[i])
    &&& forall|i: int| 0 <= i < c.objects.len() ==> object_view_wf(#[trigger] c.objects[i])
}

/// True when the chunk's bounding box meets the viewport rectangle of size
/// `screen` centered on `camera` (closed intervals, compared in doubled
/// world units).
pub open spec fn spec_chunk_visible(c: ChunkView, camera: Vec2i, screen: Vec2i) -> bool {
    rects_intersect(
        2 * c.bounds_min.x,
        2 * c.bounds_min.y,
        2 * c.bounds_max.x,
        2 * c.bounds_max.y,
        2 * camera.x - screen.x,
        2 * camera.y - screen.y,
        2 * camera.x + screen.x,
        2 * camera.y + screen.y,
    )
}

/// Clamps `v` into `[lo, hi]`.
pub open spec fn spec_clamp(v: int, lo: int, hi: int) -> int {
    if v < lo {
        lo
    } else if v > hi {
        hi
    } else {
        v
    }
}

/// First grid column of the chunk covered by the viewport, clamped into the
/// grid.
pub open spec fn spec_grid_start_x(c: ChunkView, camera: Vec2i, screen: Vec2i) -> int {
    spec_clamp(
        (2 * camera.x - screen.x - 2 * c.bounds_min.x) / (2 * TILE_SIZE as int),
        0,
        CHUNK_SIZE as int - 1,
    )
}

/// One past the last grid column covered by the viewport, clamped.
pub open spec fn spec_grid_end_x(c: ChunkView, camera: Vec2i, screen: Vec2i) -> int {
    spec_clamp(
        (2 * camera.x + screen.x - 2 * c.bounds_min.x + 2 * TILE_SIZE as int - 1) / (2
            * TILE_SIZE as int),
        0,
        CHUNK_SIZE as int,
    )
}

/// First grid row covered by the viewport, clamped.
pub open spec fn spec_grid_start_y(c: ChunkView, camera: Vec2i, screen: Vec2i) -> int {
    spec_clamp(
        (2 * camera.y - screen.y - 2 * c.bounds_min.y) / (2 * TILE_SIZE as int),
        0,
        CHUNK_SIZE as int - 1,
    )
}

/// One past the last grid row covered by the viewport, clamped.
pub open spec fn spec_grid_end_y(c: ChunkView, camera: Vec2i, screen: Vec2i) -> int {
    spec_clamp(
        (2 * camera.y + screen.y - 2 * c.bounds_min.y + 2 * TILE_SIZE as int - 1) / (2
            * TILE_SIZE as int),
        0,
        CHUNK_SIZE as int,
    )
}

/// True when the tile at row-major index `idx` falls in the viewport's grid
/// window.
pub open spec fn spec_tile_visible(c: ChunkView, camera: Vec2i, screen: Vec2i, idx: int) -> bool {
    &&& 0 <= idx < c.tiles.len()
    &&& spec_grid_start_y(c, camera, screen) <= idx / (CHUNK_SIZE as int) < spec_grid_end_y(
        c,
        camera,
        screen,
    )
    &&& spec_grid_start_x(c, camera, screen) <= idx % (CHUNK_SIZE as int) < spec_grid_end_x(
        c,
        camera,
        screen,
    )
}

/// True when the object at index `i` lies within the viewport expanded by
/// the activation margin on all sides.
pub open spec fn spec_object_active(c: ChunkView, camera: Vec2i, screen: Vec2i, i: int) -> bool {
    &&& 0 <= i < c.objects.len()
    &&& 2 * c.objects[i].pos.x >= 2 * camera.x - screen.x - 2 * OBJECT_ACTIVATION_MARGIN
    &&& 2 * c.objects[i].pos.x <= 2 * camera.x + screen.x + 2 * OBJECT_ACTIVATION_MARGIN
    &&& 2 * c.objects[i].pos.y >= 2 * camera.y - screen.y - 2 * OBJECT_ACTIVATION_MARGIN
    &&& 2 * c.objects[i].pos.y <= 2 * camera.y + screen.y + 2 * OBJECT_ACTIVATION_MARGIN
}

/// A strictly increasing index list that holds exactly the indices
/// satisfying `spec_tile_visible`.
pub open spec fn tile_list_exact(c: ChunkView, camera: Vec2i, screen: Vec2i, l: Seq<usize>) -> bool {
    &&& forall|k1: int, k2: int| 0 <= k1 < k2 < l.len() ==> l[k1] < l[k2]
    &&& forall|k: int| 0 <= k < l.len() ==> spec_tile_visible(c, camera, screen, #[trigger] l[k] as int)
    &&& forall|idx: usize|
        spec_tile_visible(c, camera, screen, idx as int) ==> exists|k: int|
            0 <= k < l.len() && l[k] == idx
}

/// A strictly increasing index list that holds exactly the indices
/// satisfying `spec_object_active`.
pub open spec fn active_list_exact(
    c: ChunkView,
    camera: Vec2i,
    screen: Vec2i,
    l: Seq<usize>,
) -> bool {
    &&& forall|k1: int, k2: int| 0 <= k1 < k2 < l.len() ==> l[k1] < l[k2]
    &&& forall|k: int|
        0 <= k < l.len() ==> spec_object_active(c, camera, screen, #[trigger] l[k] as int)
    &&& forall|i: usize|
        spec_object_active(c, camera, screen, i as int) ==> exists|k: int|
            0 <= k < l.len() && l[k] == i
}

/// Mathematical content of a [`ChunkData`] record.
#[verifier::ext_equal]
pub ghost struct ChunkDataView {
    pub pos: Vec2i,
    pub tiles: Seq<Seq<u8>>,
    pub objects: Seq<Seq<u8>>,
}

/// The persisted record of a chunk: its chunk coordinate and the serialized
/// record of every tile and every object, in list order.
pub struct ChunkData {
    pub pos: Vec2i,
    pub tiles: Vec<Vec<u8>>,
    pub objects: Vec<Vec<u8>>,
}

impl View for ChunkData {
    type V = ChunkDataView;

    open spec fn view(&self) -> ChunkDataView {
        ChunkDataView {
            pos: self.pos,
            tiles: self.tiles.deep_view(),
            objects: self.objects.deep_view(),
        }
    }
}

/// The member records of a chunk's tiles.
pub open spec fn chunk_tile_blobs(c: ChunkView) -> Seq<Seq<u8>> {
    c.tiles.map_values(|t: TileView| spec_enc_tile_rec(tile_record_of(t)))
}

/// The member records of a chunk's objects.
pub open spec fn chunk_object_blobs(c: ChunkView) -> Seq<Seq<u8>> {
    c.objects.map_values(|o: ObjectView| spec_enc_object_rec(object_record_of(o)))
}

/// The bytes of a chunk record: kind byte, coordinate, the two member
/// counts, and the length-prefixed member records, tiles first.
pub open spec fn spec_enc_chunk(c: ChunkView) -> Seq<u8> {
    seq![CHUNK_KIND] + spec_enc_i64(c.pos.x) + spec_enc_i64(c.pos.y) + spec_enc_u64(
        c.tiles.len() as u64,
    ) + spec_enc_u64(c.objects.len() as u64) + spec_enc_blob_list(
        chunk_tile_blobs(c) + chunk_object_blobs(c),
    )
}

/// The chunk record encoded in `b`, when `b` is exactly such an encoding
/// with an in-bounds chunk coordinate.
pub open spec fn spec_parse_chunk_rec(b: Seq<u8>) -> Option<ChunkDataView> {
    if b.len() < 33 {
        None
    } else if b[0] != CHUNK_KIND {
        None
    } else {
        let cx = key_i64(vstd::bytes::spec_u64_from_le_bytes(b.subrange(1, 9)));
        let cy = key_i64(vstd::bytes::spec_u64_from_le_bytes(b.subrange(9, 17)));
        let nt = vstd::bytes::spec_u64_from_le_bytes(b.subrange(17, 25));
        let no = vstd::bytes::spec_u64_from_le_bytes(b.subrange(25, 33));
        if !(-CHUNK_COORD_LIMIT <= cx <= CHUNK_COORD_LIMIT && -CHUNK_COORD_LIMIT <= cy
            <= CHUNK_COORD_LIMIT) {
            None
        } else {
            match spec_parse_blob_list(b.subrange(33, b.len() as int), (nt + no) as nat) {
                None => None,
                Some(l) => Some(
                    ChunkDataView {
                        pos: Vec2i { x: cx, y: cy },
                        tiles: l.take(nt as int),
                        objects: l.skip(nt as int),
                    },
                ),
            }
        }
    }
}

/// What reconstructing each tile of `blobs` in order against `reg` yields:
/// the list of tiles, or the error of the first member that fails.
pub open spec fn spec_deser_tile_list(reg: Seq<TileView>, blobs: Seq<Seq<u8>>) -> Result<
    Seq<TileView>,
    WorldError,
>
    decreases blobs.len(),
{
    if blobs.len() == 0 {
        Ok(Seq::empty())
    } else {
        match spec_deser_tile_list(reg, blobs.drop_last()) {
            Err(e) => Err(e),
            Ok(rest) => match spec_deser_tile(reg, blobs.last()) {
                Err(e) => Err(e),
                Ok(t) => Ok(rest.push(t)),
            },
        }
    }
}

/// What reconstructing each object of `blobs` in order against `reg`
/// yields.
pub open spec fn spec_deser_object_list(reg: Seq<ObjectView>, blobs: Seq<Seq<u8>>) -> Result<
    Seq<ObjectView>,
    WorldError,
>
    decreases blobs.len(),
{
    if blobs.len() == 0 {
        Ok(Seq::empty())
    } else {
        match spec_deser_object_list(reg, blobs.drop_last()) {
            Err(e) => Err(e),
            Ok(rest) => match spec_deser_object(reg, blobs.last()) {
                Err(e) => Err(e),
                Ok(o) => Ok(rest.push(o)),
            },
        }
    }
}

/// A member that fails after a clean prefix fails the whole list with its
/// own error.
pub proof fn lemma_deser_tile_list_err(
    reg: Seq<TileView>,
    blobs: Seq<Seq<u8>>,
    i: int,
    e: WorldError,
)
    requires
        0 <= i < blobs.len(),
        spec_deser_tile_list(reg, blobs.take(i)) is Ok,
        spec_deser_tile(reg, blobs[i]) == Err::<TileView, WorldError>(e),
    ensures
        spec_deser_tile_list(reg, blobs) == Err::<Seq<TileView>, WorldError>(e),
    decreases blobs.len(),
{
    if i == blobs.len() - 1 {
        assert(blobs.drop_last() =~= blobs.take(i));
    } else {
        assert(blobs.drop_last().take(i) =~= blobs.take(i));
        assert(blobs.drop_last()[i] == blobs[i]);
        lemma_deser_tile_list_err(reg, blobs.drop_last(), i, e);
    }
}

/// A member that fails after a clean prefix fails the whole list with its
/// own error.
pub proof fn lemma_deser_object_list_err(
    reg: Seq<ObjectView>,
    blobs: Seq<Seq<u8>>,
    i: int,
    e: WorldError,
)
    requires
        0 <= i < blobs.len(),
        spec_deser_object_list(reg, blobs.take(i)) is Ok,
        spec_deser_object(reg, blobs[i]) == Err::<ObjectView, WorldError>(e),
    ensures
        spec_deser_object_list(reg, blobs) == Err::<Seq<ObjectView>, WorldError>(e),
    decreases blobs.len(),
{
    if i == blobs.len() - 1 {
        assert(blobs.drop_last() =~= blobs.take(i));
    } else {
        assert(blobs.drop_last().take(i) =~= blobs.take(i));
        assert(blobs.drop_last()[i] == blobs[i]);
        lemma_deser_object_list_err(reg, blobs.drop_last(), i, e);
    }
}

/// What reconstructing a chunk from the record bytes `b` against the two
/// registries yields: the parsed coordinate with every member reconstructed
/// in order, or the first failure.
pub open spec fn spec_deser_chunk(
    treg: Seq<TileView>,
    oreg: Seq<ObjectView>,
    b: Seq<u8>,
) -> Result<ChunkView, WorldError> {
    match spec_parse_chunk_rec(b) {
        None => Err(WorldError::MalformedRecord),
        Some(cd) => match spec_deser_tile_list(treg, cd.tiles) {
            Err(e) => Err(e),
            Ok(ts) => match spec_deser_object_list(oreg, cd.objects) {
                Err(e) => Err(e),
                Ok(os) => Ok(
                    ChunkView {
                        tiles: ts,
                        objects: os,
                        pos: cd.pos,
                        bounds_min: Vec2i {
                            x: ((cd.pos.x as int) * (CHUNK_PIXELS as int)) as i64,
                            y: ((cd.pos.y as int) * (CHUNK_PIXELS as int)) as i64,
                        },
                        bounds_max: Vec2i {
                            x: ((cd.pos.x as int) * (CHUNK_PIXELS as int) + CHUNK_PIXELS) as i64,
                            y: ((cd.pos.y as int) * (CHUNK_PIXELS as int) + CHUNK_PIXELS) as i64,
                        },
                        visible_tiles: Seq::empty(),
                        active_objects: Seq::empty(),
                    },
                ),
            },
        },
    }
}

impl Chunk {
    /// Well-formedness of the chunk's contents and derived fields.
    pub open spec fn wf(&self) -> bool {
        chunk_view_wf(self@)
    }

    /// Creates an empty chunk at the chunk coordinate `pos`, with its world
    /// bounding box derived from the coordinate.
    pub fn new(pos: Vec2i) -> (r: Chunk)
        requires
            -CHUNK_COORD_LIMIT <= pos.x <= CHUNK_COORD_LIMIT,
            -CHUNK_COORD_LIMIT <= pos.y <= CHUNK_COORD_LIMIT,
        ensures
            r.wf(),
            r@.pos == pos,
            r@.tiles =~= Seq::<TileView>::empty(),
            r@.objects =~= Seq::<ObjectView>::empty(),
            r@.visible_tiles =~= Seq::<usize>::empty(),
            r@.active_objects =~= Seq::<usize>::empty(),
    {
        let min = Vec2i { x: pos.x * CHUNK_PIXELS, y: pos.y * CHUNK_PIXELS };
        let max = Vec2i { x: min.x + CHUNK_PIXELS, y: min.y + CHUNK_PIXELS };
        Chunk {
            tiles: Vec::new(),
            objects: Vec::new(),
            pos,
            bounds: (min, max),
            visible_tiles: Vec::new(),
            active_objects: Vec::new(),
        }
    }

    /// True when any part of the chunk meets the viewport of size `screen`
    /// centered on `camera`.
    pub fn is_visible(&self, camera_pos: Vec2i, screen_size: Vec2i) -> (r: bool)
        requires
            self.wf(),
            camera_pos.is_pos(),
            screen_size.is_size(),
        ensures
            r == spec_chunk_visible(self@, camera_pos, screen_size),
    {
        let bmin = self.bounds.0;
        let bmax = self.bounds.1;
        let smin_x = 2 * camera_pos.x - screen_size.x;
        let smax_x = 2 * camera_pos.x + screen_size.x;
        let smin_y = 2 * camera_pos.y - screen_size.y;
        let smax_y = 2 * camera_pos.y + screen_size.y;
        !(2 * bmax.x < smin_x || 2 * bmin.x > smax_x || 2 * bmax.y < smin_y || 2 * bmin.y > smax_y)
    }

    /// Recomputes the list of tile indices whose grid cell falls within the
    /// viewport, clipped to the chunk grid; nothing else changes.
    pub fn update_visible_tiles(&mut self, camera_pos: Vec2i, screen_size: Vec2i)
        requires
            old(self).wf(),
            camera_pos.is_pos(),
            screen_size.is_size(),
        ensures
            final(self).wf(),
            final(self)@ == (ChunkView { visible_tiles: final(self)@.visible_tiles, ..old(self)@ }),
            tile_list_exact(old(self)@, camera_pos, screen_size, final(self)@.visible_tiles),
    {
        self.visible_tiles = Vec::new();
        let bmin = self.bounds.0;
        let tx0 = crate::geom::floor_div(2 * camera_pos.x - screen_size.x - 2 * bmin.x, 2 * TILE_SIZE);
        let tx1 = crate::geom::floor_div(
            2 * camera_pos.x + screen_size.x - 2 * bmin.x + 2 * TILE_SIZE - 1,
            2 * TILE_SIZE,
        );
        let ty0 = crate::geom::floor_div(2 * camera_pos.y - screen_size.y - 2 * bmin.y, 2 * TILE_SIZE);
        let ty1 = crate::geom::floor_div(
            2 * camera_pos.y + screen_size.y - 2 * bmin.y + 2 * TILE_SIZE - 1,
            2 * TILE_SIZE,
        );
        let cs: i64 = CHUNK_SIZE as i64;
        let start_x: usize = (if tx0 < 0 {
            0
        } else if tx0 > cs - 1 {
            cs - 1
        } else {
            tx0
        }) as usize;
        let end_x: usize = (if tx1 < 0 {
            0
        } else if tx1 > cs {
            cs
        } else {
            tx1
        }) as usize;
        let start_y: usize = (if ty0 < 0 {
            0
        } else if ty0 > cs - 1 {
            cs - 1
        } else {
            ty0
        }) as usize;
        let end_y: usize = (if ty1 < 0 {
            0
        } else if ty1 > cs {
            cs
        } else {
            ty1
        }) as usize;
        let ghost c0 = old(self)@;
        let ghost sx = spec_grid_start_x(c0, camera_pos, screen_size);
        let ghost ex = spec_grid_end_x(c0, camera_pos, screen_size);
        let ghost sy = spec_grid_start_y(c0, camera_pos, screen_size);
        let ghost ey = spec_grid_end_y(c0, camera_pos, screen_size);
        proof {
            assert(start_x == sx && end_x == ex && start_y == sy && end_y == ey);
        }
        let n = self.tiles.len();
        let mut y: usize = start_y;
        while y < end_y
            invariant
                self.tiles@ == old(self).tiles@,
                self.objects@ == old(self).objects@,
                self.pos == old(self).pos,
                self.bounds == old(self).bounds,
                self.active_objects@ == old(self).active_objects@,
                c0 == old(self)@,
                old(self).wf(),
                n == c0.tiles.len(),
                sx == spec_grid_start_x(c0, camera_pos, screen_size),
                ex == spec_grid_end_x(c0, camera_pos, screen_size),
                sy == spec_grid_start_y(c0, camera_pos, screen_size),
                ey == spec_grid_end_y(c0, camera_pos, screen_size),
                start_x == sx && end_x == ex && start_y == sy && end_y == ey,
                start_y <= y,
                y <= end_y || y == start_y,
                end_y <= CHUNK_SIZE,
                end_x <= CHUNK_SIZE,
                forall|k1: int, k2: int|
                    0 <= k1 < k2 < self.visible_tiles@.len() ==> self.visible_tiles@[k1]
                        < self.visible_tiles@[k2],
                forall|k: int|
                    0 <= k < self.visible_tiles@.len() ==> spec_tile_visible(
                        c0,
                        camera_pos,
                        screen_size,
                        #[trigger] self.visible_tiles@[k] as int,
                    ),
                forall|k: int|
                    0 <= k < self.visible_tiles@.len() ==> (#[trigger] self.visible_tiles@[k] as int)
                        / (CHUNK_SIZE as int) < y,
                forall|idx: usize|
                    spec_tile_visible(c0, camera_pos, screen_size, idx as int) && ((idx as int) / (
                    CHUNK_SIZE as int)) < y ==> exists|k: int|
                        0 <= k < self.visible_tiles@.len() && self.visible_tiles@[k] == idx,
            decreases end_y - y,
        {
            let mut x: usize = start_x;
            while x < end_x
                invariant
                    self.tiles@ == old(self).tiles@,
                    self.objects@ == old(self).objects@,
                    self.pos == old(self).pos,
                    self.bounds == old(self).bounds,
                    self.active_objects@ == old(self).active_objects@,
                    c0 == old(self)@,
                    old(self).wf(),
                    n == c0.tiles.len(),
                    sx == spec_grid_start_x(c0, camera_pos, screen_size),
                    ex == spec_grid_end_x(c0, camera_pos, screen_size),
                    sy == spec_grid_start_y(c0, camera_pos, screen_size),
                    ey == spec_grid_end_y(c0, camera_pos, screen_size),
                    start_x == sx && end_x == ex && start_y == sy && end_y == ey,
                    start_y <= y < end_y,
                    start_x <= x,
                    x <= end_x || x == start_x,
                    end_y <= CHUNK_SIZE,
                    end_x <= CHUNK_SIZE,
                    forall|k1: int, k2: int|
                        0 <= k1 < k2 < self.visible_tiles@.len() ==> self.visible_tiles@[k1]
                            < self.visible_tiles@[k2],
                    forall|k: int|
                        0 <= k < self.visible_tiles@.len() ==> spec_tile_visible(
                            c0,
                            camera_pos,
                            screen_size,
                            #[trigger] self.visible_tiles@[k] as int,
                        ),
                    forall|k: int|
                        0 <= k < self.visible_tiles@.len() ==> (#[trigger] self.visible_tiles@[k] as int)
                            < (y as int) * (CHUNK_SIZE as int) + (x as int),
                    forall|idx: usize|
                        spec_tile_visible(c0, camera_pos, screen_size, idx as int) && ((idx as int)
                            < (y as int) * (CHUNK_SIZE as int) + (x as int)) ==> exists|k: int|
                            0 <= k < self.visible_tiles@.len() && self.visible_tiles@[k] == idx,
                decreases end_x - x,
            {
                let index = y * CHUNK_SIZE + x;
                proof {
                    assert((y * CHUNK_SIZE + x) as int == (y as int) * (CHUNK_SIZE as int) + (
                    x as int)) by (nonlinear_arith)
                        requires
                            y < 16,
                            x < 16,
                            CHUNK_SIZE == 16,
                    ;
                    vstd::arithmetic::div_mod::lemma_fundamental_div_mod_converse(
                        index as int,
                        CHUNK_SIZE as int,
                        y as int,
                        x as int,
                    );
                }
                let ghost prev = self.visible_tiles@;
                if index < n {
                    self.visible_tiles.push(index);
                    proof {
                        assert(self.visible_tiles@ =~= prev.push(index));
                        assert(spec_tile_visible(c0, camera_pos, screen_size, index as int));
                        assert forall|idx: usize|
                            spec_tile_visible(c0, camera_pos, screen_size, idx as int) && (
                            (idx as int) < (y as int) * (CHUNK_SIZE as int) + (x as int) + 1) implies exists|
                            k: int,
                        |
                            0 <= k < self.visible_tiles@.len() && self.visible_tiles@[k]
                                == idx by {
                            if idx as int == (y as int) * (CHUNK_SIZE as int) + x {
                                assert(self.visible_tiles@[self.visible_tiles@.len() - 1] == idx);
                            } else {
                                assert((idx as int) < (y as int) * (CHUNK_SIZE as int) + (x as int));
                                let k = choose|k: int| 0 <= k < prev.len() && prev[k] == idx;
                                assert(self.visible_tiles@[k] == idx);
                            }
                        }
                    }
                } else {
                    proof {
                        assert forall|idx: usize|
                            spec_tile_visible(c0, camera_pos, screen_size, idx as int) && (
                            (idx as int) < (y as int) * (CHUNK_SIZE as int) + (x as int) + 1) implies exists|
                            k: int,
                        |
                            0 <= k < self.visible_tiles@.len() && self.visible_tiles@[k]
                                == idx by {
                            assert(idx as int != (y as int) * (CHUNK_SIZE as int) + x);
                            assert((idx as int) < (y as int) * (CHUNK_SIZE as int) + (x as int));
                        }
                    }
                }
                x = x + 1;
            }
            proof {
                assert forall|k: int|
                    0 <= k < self.visible_tiles@.len() implies (
                #[trigger] self.visible_tiles@[k] as int) / (CHUNK_SIZE as int) < y + 1 by {
                    assert((self.visible_tiles@[k] as int) < (y as int) * (CHUNK_SIZE as int) + (x as int));
                    assert(x <= CHUNK_SIZE as int);
                    vstd::arithmetic::div_mod::lemma_fundamental_div_mod(
                        self.visible_tiles@[k] as int,
                        CHUNK_SIZE as int,
                    );
                }
                assert forall|idx: usize|
                    spec_tile_visible(c0, camera_pos, screen_size, idx as int) && idx as int / (
                CHUNK_SIZE as int) < y + 1 implies exists|k: int|
                    0 <= k < self.visible_tiles@.len() && self.visible_tiles@[k] == idx by {
                    vstd::arithmetic::div_mod::lemma_fundamental_div_mod(
                        idx as int,
                        CHUNK_SIZE as int,
                    );
                    if idx as int / (CHUNK_SIZE as int) == y {
                        assert(idx as int % (CHUNK_SIZE as int) < ex);
                        assert((idx as int) < (y as int) * (CHUNK_SIZE as int) + (x as int));
                    }
                }
            }
            y = y + 1;
        }
        proof {
            if start_y < end_y {
                assert forall|idx: usize|
                    spec_tile_visible(c0, camera_pos, screen_size, idx as int) implies exists|
                    k: int,
                |
                    0 <= k < self.visible_tiles@.len() && self.visible_tiles@[k] == idx by {
                    assert(idx as int / (CHUNK_SIZE as int) < ey);
                }
            } else {
                assert forall|idx: usize|
                    !spec_tile_visible(c0, camera_pos, screen_size, idx as int) by {
                    if spec_tile_visible(c0, camera_pos, screen_size, idx as int) {
                        assert(sy <= idx as int / (CHUNK_SIZE as int) < ey);
                    }
                }
            }
        }
    }

    /// Recomputes the list of object indices whose position lies within the
    /// viewport expanded by the activation margin; nothing else changes.
    pub fn update_active_objects(&mut self, camera_pos: Vec2i, screen_size: Vec2i)
        requires
            old(self).wf(),
            camera_pos.is_pos(),
            screen_size.is_size(),
        ensures
            final(self).wf(),
            final(self)@ == (ChunkView { active_objects: final(self)@.active_objects, ..old(self)@ }),
            active_list_exact(old(self)@, camera_pos, screen_size, final(self)@.active_objects),
    {
        self.active_objects = Vec::new();
        let n = self.objects.len();
        let mut i: usize = 0;
        while i < n
            invariant
                self.tiles@ == old(self).tiles@,
                self.objects@ == old(self).objects@,
                self.pos == old(self).pos,
                self.bounds == old(self).bounds,
                self.visible_tiles@ == old(self).visible_tiles@,
                old(self).wf(),
                n == self.objects@.len(),
                i <= n,
                camera_pos.is_pos(),
                screen_size.is_size(),
                forall|k1: int, k2: int|
                    0 <= k1 < k2 < self.active_objects@.len() ==> self.active_objects@[k1]
                        < self.active_objects@[k2],
                forall|k: int|
                    0 <= k < self.active_objects@.len() ==> spec_object_active(
                        old(self)@,
                        camera_pos,
                        screen_size,
                        #[trigger] self.active_objects@[k] as int,
                    ),
                forall|k: int|
                    0 <= k < self.active_objects@.len() ==> #[trigger] self.active_objects@[k] < i,
                forall|j: usize|
                    j < i && spec_object_active(old(self)@, camera_pos, screen_size, j as int)
                        ==> exists|k: int|
                        0 <= k < self.active_objects@.len() && self.active_objects@[k] == j,
            decreases n - i,
        {
            let p = self.objects[i].get_pos();
            proof {
                assert(old(self)@.objects[i as int] == self.objects@[i as int]@);
            }
            if 2 * p.x >= 2 * camera_pos.x - screen_size.x - 2 * OBJECT_ACTIVATION_MARGIN && 2 * p.x
                <= 2 * camera_pos.x + screen_size.x + 2 * OBJECT_ACTIVATION_MARGIN && 2 * p.y >= 2
                * camera_pos.y - screen_size.y - 2 * OBJECT_ACTIVATION_MARGIN && 2 * p.y <= 2
                * camera_pos.y + screen_size.y + 2 * OBJECT_ACTIVATION_MARGIN {
                let ghost prev = self.active_objects@;
                self.active_objects.push(i);
                proof {
                    assert(self.active_objects@ =~= prev.push(i));
                    assert forall|j: usize|
                        j < i + 1 && spec_object_active(
                            old(self)@,
                            camera_pos,
                            screen_size,
                            j as int,
                        ) implies exists|k: int|
                        0 <= k < self.active_objects@.len() && self.active_objects@[k] == j by {
                        if j == i {
                            assert(self.active_objects@[self.active_objects@.len() - 1] == j);
                        } else {
                            let k = choose|k: int| 0 <= k < prev.len() && prev[k] == j;
                            assert(self.active_objects@[k] == j);
                        }
                    }
                }
            }
            i = i + 1;
        }
    }

    /// Advances the chunk by one frame: a no-op when the chunk is outside
    /// the viewport; otherwise recomputes the active-object and visible-tile
    /// lists, then ticks every active object (advancing it by its velocity)
    /// and every visible tile, in that order.
    pub fn update(&mut self, camera_pos: Vec2i, screen_size: Vec2i)
        requires
            old(self).wf(),
            camera_pos.is_pos(),
            screen_size.is_size(),
            forall|i: int|
                spec_object_active(old(self)@, camera_pos, screen_size, i) ==> can_step(
                    old(self)@.objects[i],
                ),
        ensures
            final(self).wf(),
            !spec_chunk_visible(old(self)@, camera_pos, screen_size) ==> final(self)@ == old(self)@,
            spec_chunk_visible(old(self)@, camera_pos, screen_size) ==> ({
                &&& final(self)@.pos == old(self)@.pos
                &&& final(self)@.bounds_min == old(self)@.bounds_min
                &&& final(self)@.bounds_max == old(self)@.bounds_max
                &&& final(self)@.tiles == old(self)@.tiles
                &&& tile_list_exact(
                    old(self)@,
                    camera_pos,
                    screen_size,
                    final(self)@.visible_tiles,
                )
                &&& active_list_exact(
                    old(self)@,
                    camera_pos,
                    screen_size,
                    final(self)@.active_objects,
                )
                &&& final(self)@.objects.len() == old(self)@.objects.len()
                &&& forall|i: int|
                    0 <= i < old(self)@.objects.len() ==> final(self)@.objects[i] == (
                    if spec_object_active(old(self)@, camera_pos, screen_size, i) {
                        stepped(old(self)@.objects[i])
                    } else {
                        old(self)@.objects[i]
                    })
            }),
    {
        if !self.is_visible(camera_pos, screen_size) {
            return ;
        }
        let ghost c0 = old(self)@;
        let total_objects = self.objects.len();
        self.update_active_objects(camera_pos, screen_size);
        let ghost c_mid = self@;
        self.update_visible_tiles(camera_pos, screen_size);
        let ghost c1 = self@;
        proof {
            assert forall|idx: int|
                spec_tile_visible(c_mid, camera_pos, screen_size, idx) == spec_tile_visible(
                    c0,
                    camera_pos,
                    screen_size,
                    idx,
                ) by {}
            assert(tile_list_exact(c0, camera_pos, screen_size, c1.visible_tiles));
            assert(active_list_exact(c0, camera_pos, screen_size, c1.active_objects));
        }
        let m = self.active_objects.len();
        let mut k: usize = 0;
        while k < m
            invariant
                old(self).wf(),
                c0 == old(self)@,
                c1 == (ChunkView {
                    visible_tiles: c1.visible_tiles,
                    active_objects: c1.active_objects,
                    ..c0
                }),
                chunk_view_wf(c1),
                tile_list_exact(c0, camera_pos, screen_size, c1.visible_tiles),
                active_list_exact(c0, camera_pos, screen_size, c1.active_objects),
                forall|i: int|
                    spec_object_active(c0, camera_pos, screen_size, i) ==> can_step(c0.objects[i]),
                m == c1.active_objects.len(),
                k <= m,
                self.tiles@.len() == c0.tiles.len(),
                Seq::new(self.tiles@.len(), |i: int| self.tiles@[i]@) == c0.tiles,
                self.pos == c0.pos,
                self.bounds.0 == c0.bounds_min,
                self.bounds.1 == c0.bounds_max,
                self.visible_tiles@ == c1.visible_tiles,
                self.active_objects@ == c1.active_objects,
                self.objects@.len() == c0.objects.len(),
                total_objects == c0.objects.len(),
                forall|i: int|
                    0 <= i < c0.objects.len() ==> #[trigger] self@.objects[i] == (
                    if exists|kk: int| 0 <= kk < k && c1.active_objects[kk] == i {
                        stepped(c0.objects[i])
                    } else {
                        c0.objects[i]
                    }),
            decreases m - k,
        {
            let idx = self.active_objects[k];
            proof {
                assert(c1.active_objects[k as int] == idx);
                assert(spec_object_active(c0, camera_pos, screen_size, idx as int));
                assert(idx < c0.objects.len());
                assert forall|kk: int| 0 <= kk < k implies c1.active_objects[kk] != idx by {
                    assert(c1.active_objects[kk] < c1.active_objects[k as int]);
                }
                assert(self@.objects[idx as int] == c0.objects[idx as int]);
            }
            let mut o = self.objects[idx].clone_box();
            proof {
                assert(self@.objects[idx as int] == self.objects@[idx as int]@);
                assert(object_view_wf(c0.objects[idx as int]));
            }
            o.tick();
            let ghost prev_view = self@.objects;
            self.objects.set(idx, o);
            k = k + 1;
            proof {
                assert(self@.objects =~= prev_view.update(idx as int, stepped(c0.objects[idx as int])));
                assert forall|i: int| 0 <= i < c0.objects.len() implies #[trigger] self@.objects[i]
                    == (if exists|kk: int| 0 <= kk < k && c1.active_objects[kk] == i {
                    stepped(c0.objects[i])
                } else {
                    c0.objects[i]
                }) by {
                    if i == idx as int {
                        assert(c1.active_objects[k - 1] == i);
                    } else {
                        assert(self@.objects[i] == prev_view[i]);
                        assert(forall|kk: int|
                            0 <= kk < k && c1.active_objects[kk] == i ==> kk < k - 1);
                    }
                }
            }
        }
        let ghost c2 = self@;
        let ghost objs_after = self.objects@;
        proof {
            assert(c2 =~= (ChunkView { objects: c2.objects, ..c1 }));
            assert forall|i: int| 0 <= i < c0.objects.len() implies #[trigger] c2.objects[i] == (
            if spec_object_active(c0, camera_pos, screen_size, i) {
                stepped(c0.objects[i])
            } else {
                c0.objects[i]
            }) by {
                if spec_object_active(c0, camera_pos, screen_size, i) {
                    assert(i < total_objects as int);
                    assert(exists|kk: int|
                        0 <= kk < c1.active_objects.len() && c1.active_objects[kk] == i as usize);
                }
            }
        }
        let vt = self.visible_tiles.len();
        let mut t: usize = 0;
        while t < vt
            invariant
                vt == self.visible_tiles@.len(),
                t <= vt,
                chunk_view_wf(c2),
                tile_list_exact(c0, camera_pos, screen_size, c1.visible_tiles),
                c1.visible_tiles == c2.visible_tiles,
                c2.visible_tiles == self.visible_tiles@,
                c2.tiles.len() == self.tiles@.len(),
                Seq::new(self.tiles@.len(), |i: int| self.tiles@[i]@) == c2.tiles,
                self.objects@ == objs_after,
                c2.objects == Seq::new(objs_after.len(), |i: int| objs_after[i]@),
                self.pos == c2.pos,
                self.bounds.0 == c2.bounds_min,
                self.bounds.1 == c2.bounds_max,
                self.active_objects@ == c2.active_objects,
                total_objects == c0.objects.len(),
                c0 == old(self)@,
                c1 == (ChunkView {
                    visible_tiles: c1.visible_tiles,
                    active_objects: c1.active_objects,
                    ..c0
                }),
                active_list_exact(c0, camera_pos, screen_size, c1.active_objects),
                c2 == (ChunkView { objects: c2.objects, ..c1 }),
                forall|i: int|
                    0 <= i < c0.objects.len() ==> #[trigger] c2.objects[i] == (
                    if spec_object_active(c0, camera_pos, screen_size, i) {
                        stepped(c0.objects[i])
                    } else {
                        c0.objects[i]
                    }),
            decreases vt - t,
        {
            let idx = self.visible_tiles[t];
            let ghost tiles0 = Seq::new(self.tiles@.len(), |i: int| self.tiles@[i]@);
            let mut tl = self.tiles[idx].clone_box();
            proof {
                assert(tiles0[idx as int] == self.tiles@[idx as int]@);
            }
            tl.tick();
            self.tiles.set(idx, tl);
            proof {
                assert(Seq::new(self.tiles@.len(), |i: int| self.tiles@[i]@) =~= tiles0);
            }
            t = t + 1;
        }
        proof {
            assert(self@ =~= c2);
        }
    }

    /// Serializes the chunk into its record: coordinate, member counts, and
    /// the serialized record of every tile and object, in list order.
    pub fn serialize(&self) -> (r: Vec<u8>)
        requires
            self.wf(),
        ensures
            r@ == spec_enc_chunk(self@),
    {
        let mut out: Vec<u8> = Vec::new();
        out.push(CHUNK_KIND);
        enc_i64_into(&mut out, self.pos.x);
        enc_i64_into(&mut out, self.pos.y);
        let nt = self.tiles.len();
        let no = self.objects.len();
        enc_u64_into(&mut out, nt as u64);
        enc_u64_into(&mut out, no as u64);
        let ghost header = out@;
        let ghost tb = chunk_tile_blobs(self@);
        let ghost ob = chunk_object_blobs(self@);
        let mut i: usize = 0;
        while i < nt
            invariant
                self.wf(),
                nt == self.tiles@.len(),
                no == self.objects@.len(),
                i <= nt,
                tb == chunk_tile_blobs(self@),
                ob == chunk_object_blobs(self@),
                tb.len() == nt,
                out@ == header + spec_enc_blob_list(tb.take(i as int)),
            decreases nt - i,
        {
            proof {
                assert(self@.tiles[i as int] == self.tiles@[i as int]@);
                assert(tile_view_wf(self@.tiles[i as int]));
            }
            let rec = self.tiles[i].serialize();
            proof {
                assert(tb[i as int] == rec@);
                lemma_blob_list_snoc(tb.take(i as int), rec@);
                assert(tb.take(i as int + 1) =~= tb.take(i as int).push(rec@));
            }
            enc_blob_into(&mut out, rec);
            i = i + 1;
        }
        proof {
            assert(tb.take(nt as int) =~= tb);
        }
        let mut j: usize = 0;
        while j < no
            invariant
                self.wf(),
                nt == self.tiles@.len(),
                no == self.objects@.len(),
                j <= no,
                tb == chunk_tile_blobs(self@),
                ob == chunk_object_blobs(self@),
                ob.len() == no,
                out@ == header + spec_enc_blob_list(tb + ob.take(j as int)),
            decreases no - j,
        {
            proof {
                assert(self@.objects[j as int] == self.objects@[j as int]@);
                assert(object_view_wf(self@.objects[j as int]));
            }
            let rec = self.objects[j].serialize();
            proof {
                assert(ob[j as int] == rec@);
                lemma_blob_list_snoc(tb + ob.take(j as int), rec@);
                assert(tb + ob.take(j as int + 1) =~= (tb + ob.take(j as int)).push(rec@));
            }
            enc_blob_into(&mut out, rec);
            j = j + 1;
        }
        proof {
            assert(tb + ob.take(no as int) =~= tb + ob);
            assert(out@ =~= spec_enc_chunk(self@));
        }
        out
    }

    /// Reconstructs a chunk from its record via the supplied registries.
    /// The parsed coordinate gives the chunk its place; each member record
    /// is reconstructed in order, and the first member that fails fails the
    /// whole chunk with its own error.
    pub fn deserialize(
        data: &[u8],
        tile_registry: &TileRegistry,
        object_registry: &ObjectRegistry,
    ) -> (r: Result<Chunk, WorldError>)
        requires
            tile_registry.wf(),
            object_registry.wf(),
        ensures
            (match spec_deser_chunk(tile_registry@, object_registry@, data@) {
                Err(e) => r matches Err(pe) && pe == e,
                Ok(cv) => r matches Ok(c) && c.wf() && c@ == cv,
            }),
    {
        let cd = match parse_chunk_data(data) {
            None => {
                return Err(WorldError::MalformedRecord);
            },
            Some(cd) => cd,
        };
        let mut chunk = Chunk::new(cd.pos);
        let nt = cd.tiles.len();
        let mut i: usize = 0;
        while i < nt
            invariant
                tile_registry.wf(),
                object_registry.wf(),
                spec_parse_chunk_rec(data@) == Some(cd@),
                nt == cd.tiles@.len(),
                i <= nt,
                chunk.wf(),
                chunk@.pos == cd@.pos,
                chunk@.objects.len() == 0,
                chunk@.visible_tiles.len() == 0,
                chunk@.active_objects.len() == 0,
                spec_deser_tile_list(tile_registry@, cd@.tiles.take(i as int)) == Ok::<
                    Seq<TileView>,
                    WorldError,
                >(chunk@.tiles),
            decreases nt - i,
        {
            proof {
                assert(cd@.tiles[i as int] =~= cd.tiles@[i as int]@);
            }
            let member = tile_registry.deserialize_tile(cd.tiles[i].as_slice());
            match member {
                Err(e) => {
                    proof {
                        assert(spec_parse_chunk_rec(data@) == Some(cd@));
                        assert(spec_deser_tile(tile_registry@, cd@.tiles[i as int])
                            == Err::<TileView, WorldError>(e));
                        lemma_deser_tile_list_err(tile_registry@, cd@.tiles, i as int, e);
                        assert(spec_deser_chunk(tile_registry@, object_registry@, data@)
                            == Err::<ChunkView, WorldError>(e));
                    }
                    return Err(e);
                },
                Ok(t) => {
                    let ghost prev = chunk@.tiles;
                    chunk.tiles.push(t);
                    proof {
                        assert(chunk@.tiles =~= prev.push(t@));
                        assert(cd@.tiles.take(i as int + 1).drop_last() =~= cd@.tiles.take(
                            i as int,
                        ));
                        assert(cd@.tiles.take(i as int + 1).last() =~= cd@.tiles[i as int]);
                    }
                },
            }
            i = i + 1;
        }
        proof {
            assert(cd@.tiles.take(nt as int) =~= cd@.tiles);
            assert(chunk@.objects =~= Seq::<ObjectView>::empty());
            assert(cd@.objects.take(0) =~= Seq::<Seq<u8>>::empty());
            assert(spec_deser_object_list(object_registry@, cd@.objects.take(0)) == Ok::<
                Seq<ObjectView>,
                WorldError,
            >(Seq::empty()));
        }
        let no = cd.objects.len();
        let mut j: usize = 0;
        while j < no
            invariant
                tile_registry.wf(),
                object_registry.wf(),
                spec_parse_chunk_rec(data@) == Some(cd@),
                no == cd.objects@.len(),
                j <= no,
                chunk.wf(),
                chunk@.pos == cd@.pos,
                chunk@.visible_tiles.len() == 0,
                chunk@.active_objects.len() == 0,
                spec_deser_tile_list(tile_registry@, cd@.tiles) == Ok::<Seq<TileView>, WorldError>(
                    chunk@.tiles,
                ),
                spec_deser_object_list(object_registry@, cd@.objects.take(j as int)) == Ok::<
                    Seq<ObjectView>,
                    WorldError,
                >(chunk@.objects),
            decreases no - j,
        {
            proof {
                assert(cd@.objects[j as int] =~= cd.objects@[j as int]@);
            }
            let member = object_registry.deserialize_object(cd.objects[j].as_slice());
            match member {
                Err(e) => {
                    proof {
                        assert(spec_parse_chunk_rec(data@) == Some(cd@));
                        assert(spec_deser_object(object_registry@, cd@.objects[j as int])
                            == Err::<ObjectView, WorldError>(e));
                        lemma_deser_object_list_err(object_registry@, cd@.objects, j as int, e);
                        assert(spec_deser_chunk(tile_registry@, object_registry@, data@)
                            == Err::<ChunkView, WorldError>(e));
                    }
                    return Err(e);
                },
                Ok(o) => {
                    let ghost prev_t = chunk@.tiles;
                    let ghost prev = chunk@.objects;
                    chunk.objects.push(o);
                    proof {
                        assert(chunk@.objects =~= prev.push(o@));
                        assert(chunk@.tiles =~= prev_t);
                        assert(cd@.objects.take(j as int + 1).drop_last() =~= cd@.objects.take(
                            j as int,
                        ));
                        assert(cd@.objects.take(j as int + 1).last() =~= cd@.objects[j as int]);
                    }
                },
            }
            j = j + 1;
        }
        proof {
            assert(cd@.objects.take(no as int) =~= cd@.objects);
            let cv = spec_deser_chunk(tile_registry@, object_registry@, data@).unwrap();
            assert(chunk@ =~= cv);
        }
        Ok(chunk)
    }

    /// References to the tiles of this chunk whose tag is exactly
    /// `type_tag`, in list order.
    pub fn get_tiles_by_type<'a>(&'a self, type_tag: &str) -> (r: Vec<&'a Tile>)
        ensures
            Seq::new(r@.len(), |i: int| r@[i]@) == tiles_with_tag(self@.tiles, type_tag@),
    {
        let mut found: Vec<&Tile> = Vec::new();
        let n = self.tiles.len();
        let mut i: usize = 0;
        while i < n
            invariant
                n == self.tiles@.len(),
                i <= n,
                Seq::new(found@.len(), |k: int| found@[k]@) == tiles_with_tag(
                    self@.tiles.take(i as int),
                    type_tag@,
                ),
            decreases n - i,
        {
            let ghost prev = Seq::new(found@.len(), |k: int| found@[k]@);
            proof {
                assert(self@.tiles.take(i as int + 1).drop_last() =~= self@.tiles.take(i as int));
                assert(self@.tiles.take(i as int + 1).last() == self@.tiles[i as int]);
                assert(self@.tiles[i as int] == self.tiles@[i as int]@);
            }
            if crate::text::str_eq(self.tiles[i].tag.as_str(), type_tag) {
                found.push(&self.tiles[i]);
                proof {
                    assert(Seq::new(found@.len(), |k: int| found@[k]@) =~= prev.push(
                        self@.tiles[i as int],
                    ));
                }
            } else {
                proof {
                    assert(Seq::new(found@.len(), |k: int| found@[k]@) =~= prev);
                }
            }
            i = i + 1;
        }
        proof {
            assert(self@.tiles.take(n as int) =~= self@.tiles);
        }
        found
    }

    /// References to the objects of this chunk whose tag is exactly
    /// `type_tag`, in list order.
    pub fn get_objects_by_type<'a>(&'a self, type_tag: &str) -> (r: Vec<&'a Object>)
        ensures
            Seq::new(r@.len(), |i: int| r@[i]@) == objects_with_tag(self@.objects, type_tag@),
    {
        let mut found: Vec<&Object> = Vec::new();
        let n = self.objects.len();
        let mut i: usize = 0;
        while i < n
            invariant
                n == self.objects@.len(),
                i <= n,
                Seq::new(found@.len(), |k: int| found@[k]@) == objects_with_tag(
                    self@.objects.take(i as int),
                    type_tag@,
                ),
            decreases n - i,
        {
            let ghost prev = Seq::new(found@.len(), |k: int| found@[k]@);
            proof {
                assert(self@.objects.take(i as int + 1).drop_last() =~= self@.objects.take(
                    i as int,
                ));
                assert(self@.objects.take(i as int + 1).last() == self@.objects[i as int]);
                assert(self@.objects[i as int] == self.objects@[i as int]@);
            }
            if crate::text::str_eq(self.objects[i].tag.as_str(), type_tag) {
                found.push(&self.objects[i]);
                proof {
                    assert(Seq::new(found@.len(), |k: int| found@[k]@) =~= prev.push(
                        self@.objects[i as int],
                    ));
                }
            } else {
                proof {
                    assert(Seq::new(found@.len(), |k: int| found@[k]@) =~= prev);
                }
            }
            i = i + 1;
        }
        proof {
            assert(self@.objects.take(n as int) =~= self@.objects);
        }
        found
    }


    /// Submits every visible tile of the chunk to the batch, first
    /// recomputing the visible-tile list; a no-op when the chunk is outside
    /// the viewport.
    pub fn draw_tiles(&mut self, camera_pos: Vec2i, screen_size: Vec2i, batch: &mut DrawBatch)
        requires
            old(self).wf(),
            old(batch).wf(),
            camera_pos.is_pos(),
            screen_size.is_size(),
        ensures
            final(self).wf(),
            final(batch).wf(),
            !spec_chunk_visible(old(self)@, camera_pos, screen_size) ==> final(self)@ == old(self)@
                && final(batch)@ == old(batch)@,
            spec_chunk_visible(old(self)@, camera_pos, screen_size) ==> ({
                &&& final(self)@ == (ChunkView {
                    visible_tiles: final(self)@.visible_tiles,
                    ..old(self)@
                })
                &&& tile_list_exact(old(self)@, camera_pos, screen_size, final(self)@.visible_tiles)
                &&& final(batch)@ == crate::draw::spec_batch_add_all(
                    old(batch)@,
                    tile_draw_cmds(final(self)@),
                )
            }),
    {
        if !self.is_visible(camera_pos, screen_size) {
            return ;
        }
        self.update_visible_tiles(camera_pos, screen_size);
        let ghost c1 = self@;
        let ghost b0 = batch@;
        let ghost cmds = tile_draw_cmds(c1);
        let vt = self.visible_tiles.len();
        let mut t: usize = 0;
        while t < vt
            invariant
                chunk_view_wf(c1),
                c1 == self@,
                c1.tiles == old(self)@.tiles,
                chunk_view_wf(old(self)@),
                tile_list_exact(old(self)@, camera_pos, screen_size, c1.visible_tiles),
                camera_pos.is_pos(),
                screen_size.is_size(),
                vt == c1.visible_tiles.len(),
                t <= vt,
                cmds == tile_draw_cmds(c1),
                cmds.len() == vt,
                batch.wf(),
                batch@ == crate::draw::spec_batch_add_all(b0, cmds.take(t as int)),
            decreases vt - t,
        {
            let idx = self.visible_tiles[t];
            proof {
                assert(c1.visible_tiles[t as int] == idx);
                assert(crate::chunk::spec_tile_visible(old(self)@, camera_pos, screen_size, idx as int));
                assert(idx < self.tiles@.len());
                assert(c1.tiles[idx as int] == self.tiles@[idx as int]@);
                assert(cmds.take(t as int + 1).drop_last() =~= cmds.take(t as int));
                assert(cmds.take(t as int + 1).last() == cmds[t as int]);
            }
            let p = self.tiles[idx].get_pos();
            let ghost bpre = batch@;
            self.tiles[idx].draw(batch, p);
            proof {
                assert(batch@ == crate::draw::spec_batch_add(bpre, cmds[t as int].0, cmds[t as int].1));
            }
            t = t + 1;
        }
        proof {
            assert(cmds.take(vt as int) =~= cmds);
        }
    }

    /// Submits every active object of the chunk to the batch, skipping any
    /// stale index that no longer names an object.
    pub fn draw_objects(&self, batch: &mut DrawBatch)
        requires
            self.wf(),
            old(batch).wf(),
        ensures
            final(batch).wf(),
            final(batch)@ == crate::draw::spec_batch_add_all(
                old(batch)@,
                object_draw_cmds(self@, self@.active_objects.len() as int),
            ),
    {
        let ghost b0 = batch@;
        let m = self.active_objects.len();
        let mut k: usize = 0;
        while k < m
            invariant
                self.wf(),
                m == self@.active_objects.len(),
                k <= m,
                batch.wf(),
                batch@ == crate::draw::spec_batch_add_all(b0, object_draw_cmds(self@, k as int)),
            decreases m - k,
        {
            let idx = self.active_objects[k];
            if idx < self.objects.len() {
                let ghost bpre = batch@;
                proof {
                    assert(self@.objects[idx as int] == self.objects@[idx as int]@);
                }
                self.objects[idx].draw(batch);
                proof {
                    assert(self@.active_objects[k as int] == idx);
                    assert(object_draw_cmds(self@, k as int + 1) =~= object_draw_cmds(
                        self@,
                        k as int,
                    ).push(
                        (
                            self@.objects[idx as int].texture,
                            crate::draw::DrawItem {
                                pos: self@.objects[idx as int].pos,
                                scale: TILE_SIZE,
                                dest_size: Some(self@.objects[idx as int].size),
                            },
                        ),
                    ));
                    let cmds1 = object_draw_cmds(self@, k as int + 1);
                    assert(cmds1.drop_last() =~= object_draw_cmds(self@, k as int));
                    assert(batch@ == crate::draw::spec_batch_add_all(b0, cmds1));
                }
            } else {
                proof {
                    assert(object_draw_cmds(self@, k as int + 1) =~= object_draw_cmds(
                        self@,
                        k as int,
                    ));
                }
            }
            k = k + 1;
        }
    }

}


/// The tiles of `s` whose tag is exactly `tag`, in list order.
pub open spec fn tiles_with_tag(s: Seq<TileView>, tag: Seq<char>) -> Seq<TileView>
    decreases s.len(),
{
    if s.len() == 0 {
        Seq::empty()
    } else {
        let prefix = tiles_with_tag(s.drop_last(), tag);
        if s.last().tag == tag {
            prefix.push(s.last())
        } else {
            prefix
        }
    }
}

/// The objects of `s` whose tag is exactly `tag`, in list order.
pub open spec fn objects_with_tag(s: Seq<ObjectView>, tag: Seq<char>) -> Seq<ObjectView>
    decreases s.len(),
{
    if s.len() == 0 {
        Seq::empty()
    } else {
        let prefix = objects_with_tag(s.drop_last(), tag);
        if s.last().tag == tag {
            prefix.push(s.last())
        } else {
            prefix
        }
    }
}

/// Parses a whole byte string as a chunk record, without reconstructing
/// its members.
pub fn parse_chunk_data(data: &[u8]) -> (r: Option<ChunkData>)
    ensures
        (match r {
            Some(cd) => spec_parse_chunk_rec(data@) == Some(cd@),
            None => spec_parse_chunk_rec(data@) is None,
        }),
{
    let n = data.len();
    if n < 33 {
        return None;
    }
    if *vstd::slice::slice_index_get(data, 0) != CHUNK_KIND {
        return None;
    }
    let cx = dec_i64_at(data, 1);
    let cy = dec_i64_at(data, 9);
    let nt = dec_u64_at(data, 17);
    let no = dec_u64_at(data, 25);
    if !(-CHUNK_COORD_LIMIT <= cx && cx <= CHUNK_COORD_LIMIT && -CHUNK_COORD_LIMIT <= cy && cy
        <= CHUNK_COORD_LIMIT) {
        return None;
    }
    let total = match nt.checked_add(no) {
        Some(t) => t,
        None => {
            proof {
                crate::codec::lemma_blob_list_too_many(
                    data@.subrange(33, n as int),
                    (nt + no) as nat,
                );
            }
            return None;
        },
    };
    match parse_blob_list(data, 33, total) {
        None => None,
        Some(l) => {
            let ghost ldv = l.deep_view();
            proof {
                lemma_blob_list_canonical(
                    data@.subrange(33, n as int),
                    (nt + no) as nat,
                    ldv,
                );
            }
            let mut tiles_part = l;
            let nt_us = nt as usize;
            let objects_part = tiles_part.split_off(nt_us);
            proof {
                assert(tiles_part.deep_view() =~= ldv.take(nt as int));
                assert(objects_part.deep_view() =~= ldv.skip(nt as int));
            }
            Some(ChunkData { pos: Vec2i { x: cx, y: cy }, tiles: tiles_part, objects: objects_part })
        },
    }

}

/// The draw submissions of a chunk's visible tiles, one per index in the
/// visible-tile list, in list order.
pub open spec fn tile_draw_cmds(c: ChunkView) -> Seq<(u64, crate::draw::DrawItem)> {
    Seq::new(
        c.visible_tiles.len(),
        |k: int|
            (
                c.tiles[c.visible_tiles[k] as int].texture,
                crate::draw::DrawItem {
                    pos: c.tiles[c.visible_tiles[k] as int].pos,
                    scale: TILE_SIZE,
                    dest_size: None,
                },
            ),
    )
}

/// The draw submissions of the first `upto` entries of a chunk's
/// active-object list, skipping stale indices.
pub open spec fn object_draw_cmds(c: ChunkView, upto: int) -> Seq<(u64, crate::draw::DrawItem)>
    decreases upto,
{
    if upto <= 0 {
        Seq::empty()
    } else {
        let prev = object_draw_cmds(c, upto - 1);
        let idx = c.active_objects[upto - 1] as int;
        if idx < c.objects.len() {
            prev.push(
                (
                    c.objects[idx].texture,
                    crate::draw::DrawItem {
                        pos: c.objects[idx].pos,
                        scale: TILE_SIZE,
                        dest_size: Some(c.objects[idx].size),
                    },
                ),
            )
        } else {
            prev
        }
    }
}

} // verus!
